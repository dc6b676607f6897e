//! The textual hex-colour format and the channel it is published on.

use vstd::prelude::*;
use vstd::string::StringExecFns;

verus! {

/// The lowercase hex digit for a value below 16.
pub open spec fn hex_digit(n: int) -> char {
    if n < 10 {
        (48 + n) as char
    } else {
        (87 + n) as char
    }
}

/// The decimal digit for a value below 10.
pub open spec fn decimal_digit(n: int) -> char {
    (48 + n) as char
}

/// Character `i` of the payload for `buffer`: each pixel is a `#`, the two
/// hex digits of each of its three bytes, and a space.
pub open spec fn payload_char(buffer: Seq<u8>, i: int) -> char {
    let slot = i % 8;
    if slot == 0 {
        '#'
    } else if slot == 7 {
        ' '
    } else {
        let byte = buffer[3 * (i / 8) + (slot - 1) / 2];
        if (slot - 1) % 2 == 0 {
            hex_digit(byte as int / 16)
        } else {
            hex_digit(byte as int % 16)
        }
    }
}

/// The payload for `buffer`: one token per whole pixel, by ascending index.
pub open spec fn hex_payload(buffer: Seq<u8>) -> Seq<char> {
    Seq::new((8 * (buffer.len() / 3)) as nat, |i: int| payload_char(buffer, i))
}

/// `token` written `count` times over.
pub open spec fn repeated(token: Seq<char>, count: nat) -> Seq<char> {
    Seq::new(count * token.len(), |i: int| token[i % (token.len() as int)])
}

/// The decimal digits of `n`, most significant first.
pub open spec fn decimal(n: nat) -> Seq<char>
    decreases n,
{
    if n < 10 {
        seq![decimal_digit(n as int)]
    } else {
        decimal(n / 10).push(decimal_digit((n % 10) as int))
    }
}

/// The name of the channel of a text device: its prefix followed by the
/// lowest target pixel it shows, counted from one.
pub open spec fn channel_of(prefix: Seq<char>, lowest_target: int) -> Seq<char> {
    prefix + decimal((lowest_target + 1) as nat)
}

/// The payload of a buffer of black pixels is the black token, once for each
/// pixel.
pub proof fn lemma_black_payload(pixels: nat)
    ensures
        hex_payload(Seq::new(3 * pixels, |i: int| 0u8)) == repeated("#000000 "@, pixels),
{
    reveal_strlit("#000000 ");
    let buffer = Seq::new(3 * pixels, |i: int| 0u8);
    let token = "#000000 "@;
    assert(token.len() == 8);
    assert(buffer.len() / 3 == pixels);
    assert forall|i: int| 0 <= i < 8 * pixels implies payload_char(buffer, i) == token[i % 8] by {
        let slot = i % 8;
        if 0 < slot < 7 {
            let at = 3 * (i / 8) + (slot - 1) / 2;
            assert(0 <= at < 3 * pixels);
            assert(buffer[at] == 0u8);
        }
    }
    assert(hex_payload(buffer) =~= repeated(token, pixels));
}

/// The hex digit of `n` as text.
fn hex_digit_text(n: u8) -> (text: &'static str)
    requires
        n < 16,
    ensures
        text@ == seq![hex_digit(n as int)],
{
    proof {
        reveal_strlit("0");
        reveal_strlit("1");
        reveal_strlit("2");
        reveal_strlit("3");
        reveal_strlit("4");
        reveal_strlit("5");
        reveal_strlit("6");
        reveal_strlit("7");
        reveal_strlit("8");
        reveal_strlit("9");
        reveal_strlit("a");
        reveal_strlit("b");
        reveal_strlit("c");
        reveal_strlit("d");
        reveal_strlit("e");
        reveal_strlit("f");
    }
    let text = match n {
        0 => "0",
        1 => "1",
        2 => "2",
        3 => "3",
        4 => "4",
        5 => "5",
        6 => "6",
        7 => "7",
        8 => "8",
        9 => "9",
        10 => "a",
        11 => "b",
        12 => "c",
        13 => "d",
        14 => "e",
        _ => "f",
    };
    proof {
        assert(text@ =~= seq![hex_digit(n as int)]);
    }
    text
}

/// Appends the two hex digits of `byte` to `text`.
fn append_hex_byte(text: &mut String, byte: u8)
    ensures
        final(text)@ == old(text)@ + seq![
            hex_digit(byte as int / 16),
            hex_digit(byte as int % 16),
        ],
{
    text.append(hex_digit_text(byte / 16));
    text.append(hex_digit_text(byte % 16));
    proof {
        assert(text@ =~= old(text)@ + seq![
            hex_digit(byte as int / 16),
            hex_digit(byte as int % 16),
        ]);
    }
}

/// Renders `buffer` as hex-colour tokens: `#rrggbb ` for each whole pixel, by
/// ascending index.
pub fn encode_hex(buffer: &[u8]) -> (payload: String)
    ensures
        payload@ == hex_payload(buffer@),
{
    let pixels = buffer.len() / 3;
    let mut payload = String::new();
    let mut p: usize = 0;
    while p < pixels
        invariant
            p <= pixels,
            pixels == buffer@.len() / 3,
            buffer@.len() <= usize::MAX,
            payload@.len() == 8 * p,
            forall|i: int| 0 <= i < 8 * p ==> payload@[i] == payload_char(buffer@, i),
        decreases pixels - p,
    {
        let ghost before = payload@;
        proof {
            reveal_strlit("#");
            reveal_strlit(" ");
        }
        payload.append("#");
        append_hex_byte(&mut payload, buffer[3 * p]);
        append_hex_byte(&mut payload, buffer[3 * p + 1]);
        append_hex_byte(&mut payload, buffer[3 * p + 2]);
        payload.append(" ");
        proof {
            let r = buffer@[3 * p] as int;
            let g = buffer@[3 * p + 1] as int;
            let b = buffer@[3 * p + 2] as int;
            let token = seq![
                '#',
                hex_digit(r / 16),
                hex_digit(r % 16),
                hex_digit(g / 16),
                hex_digit(g % 16),
                hex_digit(b / 16),
                hex_digit(b % 16),
                ' ',
            ];
            assert(payload@ =~= before + token);
            assert forall|i: int| 0 <= i < 8 * (p + 1) implies payload@[i] == payload_char(
                buffer@,
                i,
            ) by {
                if i >= 8 * p {
                    let slot = i - 8 * p;
                    assert(i / 8 == p);
                    assert(i % 8 == slot);
                    assert(payload@[i] == token[slot]);
                }
            }
        }
        p += 1;
    }
    proof {
        assert(payload@ =~= hex_payload(buffer@));
    }
    payload
}

/// The decimal digit of `n` as text.
fn decimal_digit_text(n: u32) -> (text: &'static str)
    requires
        n < 10,
    ensures
        text@ == seq![decimal_digit(n as int)],
{
    proof {
        reveal_strlit("0");
        reveal_strlit("1");
        reveal_strlit("2");
        reveal_strlit("3");
        reveal_strlit("4");
        reveal_strlit("5");
        reveal_strlit("6");
        reveal_strlit("7");
        reveal_strlit("8");
        reveal_strlit("9");
    }
    let text = match n {
        0 => "0",
        1 => "1",
        2 => "2",
        3 => "3",
        4 => "4",
        5 => "5",
        6 => "6",
        7 => "7",
        8 => "8",
        _ => "9",
    };
    proof {
        assert(text@ =~= seq![decimal_digit(n as int)]);
    }
    text
}

/// Appends the decimal digits of `n` to `text`.
fn append_decimal(text: &mut String, n: u32)
    ensures
        final(text)@ == old(text)@ + decimal(n as nat),
    decreases n,
{
    if n >= 10 {
        append_decimal(text, n / 10);
    }
    text.append(decimal_digit_text(n % 10));
    proof {
        assert(text@ =~= old(text)@ + decimal(n as nat));
    }
}

/// Names the channel of a text device from its prefix and the lowest target
/// pixel it shows.
pub fn channel_name(prefix: &str, lowest_target: u16) -> (name: String)
    ensures
        name@ == channel_of(prefix@, lowest_target as int),
{
    let mut name = String::from_str(prefix);
    append_decimal(&mut name, lowest_target as u32 + 1);
    name
}

} // verus!
