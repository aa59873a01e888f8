use vstd::prelude::*;

verus! {

/// Control characters: the general category Cc, U+0000 to U+001F and
/// U+007F to U+009F.
pub open spec fn is_control(c: char) -> bool {
    (c as u32) < 0x20 || (0x7f <= (c as u32) && (c as u32) < 0xa0)
}

/// The digit for `d` in base sixteen (and so in base ten), lower case.
pub open spec fn digit_char(d: nat) -> char {
    seq!['0', '1', '2', '3', '4', '5', '6', '7', '8', '9', 'a', 'b', 'c', 'd', 'e', 'f'][d as int]
}

/// The decimal digits of `n`, with no leading zero.
pub open spec fn decimal(n: nat) -> Seq<char>
    decreases n,
{
    if n < 10 {
        seq![digit_char(n)]
    } else {
        decimal(n / 10).push(digit_char(n % 10))
    }
}

/// The lower-case hexadecimal digits of `n`, with no leading zero.
pub open spec fn hex(n: nat) -> Seq<char>
    decreases n,
{
    if n < 16 {
        seq![digit_char(n)]
    } else {
        hex(n / 16).push(digit_char(n % 16))
    }
}

/// An integer in decimal, with a leading `-` when it is negative.
pub open spec fn int_text(i: int) -> Seq<char> {
    if i < 0 {
        seq!['-'] + decimal((-i) as nat)
    } else {
        decimal(i as nat)
    }
}

/// How one character is shown on a terminal: a control character becomes
/// `\u{..}` with its code in hexadecimal. With `keep_layout`, newline and tab
/// are kept as they are.
pub open spec fn escape_char(c: char, keep_layout: bool) -> Seq<char> {
    if keep_layout && (c == '\n' || c == '\t') {
        seq![c]
    } else if is_control(c) {
        seq!['\\', 'u', '{'] + hex(c as u32 as nat) + seq!['}']
    } else {
        seq![c]
    }
}

pub open spec fn escaped(s: Seq<char>, keep_layout: bool) -> Seq<char>
    decreases s.len(),
{
    if s.len() == 0 {
        Seq::empty()
    } else {
        escaped(s.drop_last(), keep_layout) + escape_char(s.last(), keep_layout)
    }
}

/// Relies on String::push: appends one character.
#[verifier::external_body]
pub(crate) fn push_char(s: &mut String, c: char)
    ensures
        final(s)@ == old(s)@.push(c),
{
    s.push(c)
}

/// Appends the characters of `t`.
pub(crate) fn push_text(s: &mut String, t: &str)
    ensures
        final(s)@ == old(s)@ + t@,
{
    s.append(t)
}

fn digit(d: u32) -> (c: char)
    requires
        d < 16,
    ensures
        c == digit_char(d as nat),
{
    match d {
        0 => '0',
        1 => '1',
        2 => '2',
        3 => '3',
        4 => '4',
        5 => '5',
        6 => '6',
        7 => '7',
        8 => '8',
        9 => '9',
        10 => 'a',
        11 => 'b',
        12 => 'c',
        13 => 'd',
        14 => 'e',
        _ => 'f',
    }
}

pub(crate) fn push_hex(out: &mut String, n: u32)
    ensures
        final(out)@ == old(out)@ + hex(n as nat),
    decreases n,
{
    if n >= 16 {
        push_hex(out, n / 16);
    }
    push_char(out, digit(n % 16));
    assert(final(out)@ == old(out)@ + hex(n as nat));
}

pub(crate) fn push_decimal(out: &mut String, n: u128)
    ensures
        final(out)@ == old(out)@ + decimal(n as nat),
    decreases n,
{
    if n >= 10 {
        push_decimal(out, n / 10);
    }
    push_char(out, digit((n % 10) as u32));
    assert(final(out)@ == old(out)@ + decimal(n as nat));
}

/// Appends `i` in decimal.
pub(crate) fn push_int(out: &mut String, i: i128)
    ensures
        final(out)@ == old(out)@ + int_text(i as int),
{
    if i < 0 {
        push_char(out, '-');
        let m: u128 = if i == i128::MIN {
            170141183460469231731687303715884105728u128
        } else {
            (-i) as u128
        };
        push_decimal(out, m);
        assert(final(out)@ == old(out)@ + int_text(i as int));
    } else {
        push_decimal(out, i as u128);
    }
}

/// Appends `s` with its control characters escaped (see `escape_char`).
pub(crate) fn push_escaped(out: &mut String, s: &str, keep_layout: bool)
    ensures
        final(out)@ == old(out)@ + escaped(s@, keep_layout),
{
    let n = s.unicode_len();
    let mut i: usize = 0;
    while i < n
        invariant
            n == s@.len(),
            i <= n,
            out@ == old(out)@ + escaped(s@.subrange(0, i as int), keep_layout),
        decreases n - i,
    {
        let c = s.get_char(i);
        let ghost before = out@;
        let code = c as u32;
        if keep_layout && (c == '\n' || c == '\t') {
            push_char(out, c);
        } else if code < 0x20 || (0x7f <= code && code < 0xa0) {
            push_text(out, "\\u{");
            push_hex(out, code);
            push_char(out, '}');
        } else {
            push_char(out, c);
        }
        proof {
            reveal_strlit("\\u{");
            let t = s@.subrange(0, i + 1);
            assert(t.drop_last() =~= s@.subrange(0, i as int));
            assert(out@ =~= before + escape_char(c, keep_layout));
        }
        i = i + 1;
    }
    assert(s@.subrange(0, n as int) =~= s@);
}

/// `input` as it can be shown on a terminal: newline and tab are kept, every
/// other control character becomes `\u{..}` with its code in hexadecimal.
pub fn escape_for_terminal(input: &str) -> (r: String)
    ensures
        r@ == escaped(input@, true),
{
    let mut r = String::new();
    push_escaped(&mut r, input, true);
    r
}

} // verus!
