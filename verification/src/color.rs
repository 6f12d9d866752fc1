//! Fill colours: three channels, their `#rrggbb` text, and random sampling.

use rand::Rng;
use vstd::prelude::*;
use vstd::string::*;

verus! {

/// An RGB colour. Its text form is `#rrggbb` in lowercase hexadecimal.
#[derive(Clone, Copy, Debug, PartialEq, Eq, Structural)]
pub struct Color {
    pub red: u8,
    pub green: u8,
    pub blue: u8,
}

/// The sixteen lowercase hexadecimal digits, by value.
pub open spec fn hex_digits() -> Seq<char> {
    seq!['0', '1', '2', '3', '4', '5', '6', '7', '8', '9', 'a', 'b', 'c', 'd', 'e', 'f']
}

/// The two digits of one channel, high digit first.
pub open spec fn hex_pair(v: u8) -> Seq<char> {
    seq![hex_digits()[v as int / 16], hex_digits()[v as int % 16]]
}

/// The text of a colour: `#`, then red, green and blue.
pub open spec fn hex_text(c: Color) -> Seq<char> {
    seq!['#'] + hex_pair(c.red) + hex_pair(c.green) + hex_pair(c.blue)
}

/// A lowercase hexadecimal digit.
pub open spec fn is_lower_hex(c: char) -> bool {
    ('0' <= c && c <= '9') || ('a' <= c && c <= 'f')
}

/// `#` followed by exactly six lowercase hexadecimal digits.
pub open spec fn is_hex_color(s: Seq<char>) -> bool {
    &&& s.len() == 7
    &&& s[0] == '#'
    &&& forall|i: int| 1 <= i < 7 ==> is_lower_hex(#[trigger] s[i])
}

/// Every colour's text is `#` followed by six lowercase hexadecimal digits.
pub proof fn lemma_hex_text_is_hex_color(c: Color)
    ensures
        is_hex_color(hex_text(c)),
{
    let s = hex_text(c);
    assert(s.len() == 7);
    assert forall|v: u8|
        is_lower_hex(#[trigger] hex_pair(v)[0]) && is_lower_hex(hex_pair(v)[1]) by {
        let hi = v as int / 16;
        let lo = v as int % 16;
        assert(0 <= hi < 16 && 0 <= lo < 16);
        assert(forall|k: int| 0 <= k < 16 ==> is_lower_hex(#[trigger] hex_digits()[k]));
    }
    assert(s[1] == hex_pair(c.red)[0] && s[2] == hex_pair(c.red)[1]);
    assert(s[3] == hex_pair(c.green)[0] && s[4] == hex_pair(c.green)[1]);
    assert(s[5] == hex_pair(c.blue)[0] && s[6] == hex_pair(c.blue)[1]);
}

/// One hexadecimal digit as text.
fn digit_str(n: u8) -> (s: &'static str)
    requires
        n < 16,
    ensures
        s@ == seq![hex_digits()[n as int]],
{
    let digits = "0123456789abcdef";
    proof {
        reveal_strlit("0123456789abcdef");
        assert(digits@ =~= hex_digits());
    }
    let s = digits.substring_char(n as usize, n as usize + 1);
    assert(s@ =~= seq![hex_digits()[n as int]]);
    s
}

/// Channels are sampled below this value, so a sampled channel is never
/// 255 itself.
pub const CHANNEL_LIMIT: u8 = 255;

/// Draws one value from the thread-local generator of `rand`, by
/// `thread_rng().gen_range(low..high)`. That call panics on an empty range,
/// which `low < high` rules out. The range includes `low` and excludes
/// `high`, and the value lies in it; nothing else is known of it.
#[verifier::external_body]
fn sample_range(low: u8, high: u8) -> (v: u8)
    requires
        low < high,
    ensures
        low <= v < high,
{
    rand::thread_rng().gen_range(low..high)
}

impl Color {
    /// What holds of every colour that [`generate_color`] returns: each
    /// channel lies below [`CHANNEL_LIMIT`].
    pub open spec fn is_sampled(self) -> bool {
        self.red < CHANNEL_LIMIT && self.green < CHANNEL_LIMIT && self.blue < CHANNEL_LIMIT
    }

    pub fn new(red: u8, green: u8, blue: u8) -> (c: Color)
        ensures
            c == (Color { red, green, blue }),
    {
        Color { red, green, blue }
    }

    /// The colour as `#rrggbb`, each channel zero-padded to two lowercase
    /// hexadecimal digits.
    pub fn to_hex(&self) -> (s: String)
        ensures
            s@ == hex_text(*self),
            is_hex_color(s@),
    {
        let mut s = String::from_str("#");
        proof {
            reveal_strlit("#");
            assert(s@ =~= seq!['#']);
        }
        s.append(digit_str(self.red / 16));
        s.append(digit_str(self.red % 16));
        assert(s@ =~= seq!['#'] + hex_pair(self.red));
        s.append(digit_str(self.green / 16));
        s.append(digit_str(self.green % 16));
        assert(s@ =~= seq!['#'] + hex_pair(self.red) + hex_pair(self.green));
        s.append(digit_str(self.blue / 16));
        s.append(digit_str(self.blue % 16));
        assert(s@ =~= hex_text(*self));
        proof {
            lemma_hex_text_is_hex_color(*self);
        }
        s
    }
}

/// A fresh random colour: red, green and blue are sampled one after the
/// other, each from `0..CHANNEL_LIMIT`.
pub fn generate_color() -> (c: Color)
    ensures
        c.is_sampled(),
{
    let red = sample_range(0, CHANNEL_LIMIT);
    let green = sample_range(0, CHANNEL_LIMIT);
    let blue = sample_range(0, CHANNEL_LIMIT);
    Color::new(red, green, blue)
}

/// A fresh random colour as `#rrggbb` text.
pub fn rgb_to_hex() -> (s: String)
    ensures
        is_hex_color(s@),
        exists|c: Color| c.is_sampled() && s@ == #[trigger] hex_text(c),
{
    let c = generate_color();
    c.to_hex()
}

} // verus!
