use vstd::prelude::*;

use crate::config::Config;
use crate::text::{char_to_upper, char_upper_of, compare_str, lower_of, to_lower, to_upper, upper_of};

verus! {

/// `n` spaces.
pub open spec fn spaces(n: nat) -> Seq<char> {
    Seq::new(n, |i: int| ' ')
}

/// The label shown for `level`: its override in the labels map, else the level itself.
pub open spec fn label_for(config: Config, level: Seq<char>) -> Seq<char> {
    if config.layout.labels@.contains_key(level) {
        config.layout.labels@[level]
    } else {
        level
    }
}

/// The label after the configured case transform; unknown transforms leave it as is.
pub open spec fn transformed(transform: Seq<char>, label: Seq<char>) -> Seq<char> {
    if transform == "uppercase"@ {
        upper_of(label)
    } else if transform == "lowercase"@ {
        lower_of(label)
    } else if transform == "capitalize"@ {
        if label.len() == 0 {
            label
        } else {
            char_upper_of(label[0]) + label.drop_first()
        }
    } else {
        label
    }
}

/// `s` centred in `width` columns, the odd space going right; unchanged when already wide enough.
pub open spec fn centred(s: Seq<char>, width: nat) -> Seq<char> {
    if s.len() >= width {
        s
    } else {
        let total = (width - s.len()) as nat;
        let left = total / 2;
        spaces(left) + s + spaces((total - left) as nat)
    }
}

/// The full tag for `level` under `config`.
pub open spec fn tag_for(config: Config, level: Seq<char>) -> Seq<char> {
    config.layout.tag.prefix@ + centred(
        transformed(config.layout.tag.transform@, label_for(config, level)),
        config.layout.tag.min_width as nat,
    ) + config.layout.tag.suffix@
}

fn push_spaces(s: &mut String, n: usize)
    ensures
        final(s)@ == old(s)@ + spaces(n as nat),
{
    let mut i: usize = 0;
    proof {
        reveal_strlit(" ");
    }
    assert(old(s)@ + spaces(0) =~= old(s)@);
    while i < n
        invariant
            i <= n,
            s@ == old(s)@ + spaces(i as nat),
        decreases n - i,
    {
        s.append(" ");
        proof {
            reveal_strlit(" ");
        }
        assert(old(s)@ + spaces((i + 1) as nat) =~= old(s)@ + spaces(i as nat) + " "@);
        i = i + 1;
    }
}

/// Builds level tags such as `[ INF ]`.
pub struct TagFactory;

impl TagFactory {
    /// The tag for `level`: label lookup, case transform, centring to the minimum
    /// width, then the prefix and suffix around it.
    pub fn create_tag(config: &Config, level: &str) -> (r: String)
        ensures
            r@ == tag_for(*config, level@),
    {
        let label: &str = match config.layout.labels.get(level) {
            Some(l) => l.as_str(),
            None => level,
        };
        let t = config.layout.tag.transform.as_str();
        let transformed: String = if compare_str(t, "uppercase") == 0 {
            to_upper(label)
        } else if compare_str(t, "lowercase") == 0 {
            to_lower(label)
        } else if compare_str(t, "capitalize") == 0 {
            let n = label.unicode_len();
            if n == 0 {
                String::from_str(label)
            } else {
                let mut c = char_to_upper(label.get_char(0));
                c.append(label.substring_char(1, n));
                assert(label@.subrange(1, n as int) =~= label@.drop_first());
                c
            }
        } else {
            String::from_str(label)
        };
        let width = config.layout.tag.min_width;
        let len = transformed.as_str().unicode_len();
        let mut out = String::from_str(config.layout.tag.prefix.as_str());
        if len >= width {
            out.append(transformed.as_str());
        } else {
            let total = width - len;
            let left = total / 2;
            push_spaces(&mut out, left);
            out.append(transformed.as_str());
            push_spaces(&mut out, total - left);
        }
        out.append(config.layout.tag.suffix.as_str());
        proof {
            let p = config.layout.tag.prefix@;
            let x = transformed@;
            let sfx = config.layout.tag.suffix@;
            if len < width {
                let total = (width - len) as nat;
                let left = total / 2;
                assert(out@ =~= p + (spaces(left) + x + spaces((total - left) as nat)) + sfx);
            }
        }
        out
    }
}

/// A color as red, green and blue components.
#[derive(Clone, Copy, PartialEq, Eq, Debug, Structural)]
pub struct Rgb {
    pub r: u8,
    pub g: u8,
    pub b: u8,
}

/// `s` without its leading `#` characters.
pub open spec fn strip_hashes(s: Seq<char>) -> Seq<char>
    decreases s.len(),
{
    if s.len() > 0 && s[0] == '#' {
        strip_hashes(s.drop_first())
    } else {
        s
    }
}

pub open spec fn is_hex_digit(c: char) -> bool {
    ('0' <= c && c <= '9') || ('a' <= c && c <= 'f') || ('A' <= c && c <= 'F')
}

pub open spec fn hex_value(c: char) -> nat {
    if '0' <= c && c <= '9' {
        (c as nat - '0' as nat) as nat
    } else if 'a' <= c && c <= 'f' {
        (c as nat - 'a' as nat + 10) as nat
    } else {
        (c as nat - 'A' as nat + 10) as nat
    }
}

/// A two-character component as `u8::from_str_radix(_, 16)` reads it (an optional
/// leading `+` sign is accepted), or 255 when it does not parse.
pub open spec fn component(a: char, b: char) -> u8 {
    if is_hex_digit(a) && is_hex_digit(b) {
        (hex_value(a) * 16 + hex_value(b)) as u8
    } else if a == '+' && is_hex_digit(b) {
        hex_value(b) as u8
    } else {
        255
    }
}

/// The color a hex string names: six hex digits after any leading `#`, else white.
pub open spec fn color_of(hex: Seq<char>) -> Rgb {
    let h = strip_hashes(hex);
    if h.len() == 6 {
        Rgb { r: component(h[0], h[1]), g: component(h[2], h[3]), b: component(h[4], h[5]) }
    } else {
        Rgb { r: 255, g: 255, b: 255 }
    }
}

fn hex_digit(c: char) -> (r: Option<u8>)
    ensures
        r == (if is_hex_digit(c) { Some(hex_value(c) as u8) } else { None::<u8> }),
{
    if '0' <= c && c <= '9' {
        Some((c as u32 - '0' as u32) as u8)
    } else if 'a' <= c && c <= 'f' {
        Some((c as u32 - 'a' as u32 + 10) as u8)
    } else if 'A' <= c && c <= 'F' {
        Some((c as u32 - 'A' as u32 + 10) as u8)
    } else {
        None
    }
}

fn parse_component(a: char, b: char) -> (r: u8)
    ensures
        r == component(a, b),
{
    match (hex_digit(a), hex_digit(b)) {
        (Some(x), Some(y)) => x * 16 + y,
        (None, Some(y)) => {
            if a == '+' {
                y
            } else {
                255
            }
        },
        _ => 255,
    }
}

/// Resolves hex color strings.
pub struct ColorResolver;

impl ColorResolver {
    /// Reads `#RRGGBB` (or `RRGGBB`); anything else resolves to white, and a
    /// component that does not parse to 255.
    pub fn hex_to_color(hex: &str) -> (r: Rgb)
        ensures
            r == color_of(hex@),
    {
        let n = hex.unicode_len();
        let mut i: usize = 0;
        assert(hex@.subrange(0, n as int) =~= hex@);
        while i < n && hex.get_char(i) == '#'
            invariant
                n == hex@.len(),
                i <= n,
                strip_hashes(hex@) == strip_hashes(hex@.subrange(i as int, n as int)),
            decreases n - i,
        {
            assert(hex@.subrange(i as int, n as int).drop_first() =~= hex@.subrange(i + 1, n as int));
            i = i + 1;
        }
        let ghost h = hex@.subrange(i as int, n as int);
        assert(strip_hashes(h) == h);
        if n - i == 6 {
            let r = parse_component(hex.get_char(i), hex.get_char(i + 1));
            let g = parse_component(hex.get_char(i + 2), hex.get_char(i + 3));
            let b = parse_component(hex.get_char(i + 4), hex.get_char(i + 5));
            Rgb { r, g, b }
        } else {
            Rgb { r: 255, g: 255, b: 255 }
        }
    }
}

} // verus!
