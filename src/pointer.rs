use vstd::prelude::*;

verus! {

/// The decimal digit `d` as text.
pub open spec fn digit(d: nat) -> Seq<char> {
    "0123456789"@.subrange(d as int, d as int + 1)
}

/// `n` written in decimal, without leading zeros.
pub open spec fn decimal(n: nat) -> Seq<char>
    decreases n,
{
    if n < 10 {
        digit(n)
    } else {
        decimal(n / 10) + digit(n % 10)
    }
}

/// One reference token of a JSON Pointer: `~` written `~0` and `/` written `~1`.
pub open spec fn escape_token(s: Seq<char>) -> Seq<char>
    decreases s.len(),
{
    if s.len() == 0 {
        Seq::empty()
    } else {
        escape_token(s.drop_last()) + escape_char(s.last())
    }
}

/// One character of a reference token as it stands in a URI fragment: `~` and `/`
/// are escaped for the pointer, and what a fragment cannot hold is percent-encoded.
pub open spec fn escape_char(c: char) -> Seq<char> {
    if c == '~' {
        "~0"@
    } else if c == '/' {
        "~1"@
    } else if fragment_safe(c) {
        seq![c]
    } else {
        percent_encoded(utf8(c))
    }
}

/// A character that a URI fragment holds as it is: printable ASCII but for space,
/// `"`, `<`, `>` and `` ` ``.
pub open spec fn fragment_safe(c: char) -> bool {
    0x20 < (c as u32) < 0x7f && c != '"' && c != '<' && c != '>' && c != '`'
}

/// The UTF-8 encoding of `c`.
pub open spec fn utf8(c: char) -> Seq<nat> {
    let u = c as u32 as nat;
    if u < 0x80 {
        seq![u]
    } else if u < 0x800 {
        seq![0xC0 + u / 64, 0x80 + u % 64]
    } else if u < 0x10000 {
        seq![0xE0 + u / 4096, 0x80 + (u / 64) % 64, 0x80 + u % 64]
    } else {
        seq![0xF0 + u / 262144, 0x80 + (u / 4096) % 64, 0x80 + (u / 64) % 64, 0x80 + u % 64]
    }
}

/// The hexadecimal digit `d`, in upper case.
pub open spec fn hex_digit(d: nat) -> Seq<char> {
    "0123456789ABCDEF"@.subrange(d as int, d as int + 1)
}

/// Each byte of `bytes` as `%` and two hexadecimal digits.
pub open spec fn percent_encoded(bytes: Seq<nat>) -> Seq<char>
    decreases bytes.len(),
{
    if bytes.len() == 0 {
        Seq::empty()
    } else {
        percent_encoded(bytes.drop_last()) + "%"@ + hex_digit(bytes.last() / 16) + hex_digit(bytes.last() % 16)
    }
}

/// Writes `n` in decimal.
pub fn write_decimal(n: usize) -> (r: String)
    ensures
        r@ == decimal(n as nat),
    decreases n,
{
    let digits = "0123456789";
    proof {
        reveal_strlit("0123456789");
    }
    if n < 10 {
        digits.substring_char(n, n + 1).to_string()
    } else {
        let mut s = write_decimal(n / 10);
        let d = n % 10;
        s.append(digits.substring_char(d, d + 1));
        s
    }
}

/// Appends `s` to `out` as one escaped JSON Pointer token.
pub fn push_escaped(out: &mut String, s: &str)
    ensures
        final(out)@ == old(out)@ + escape_token(s@),
{
    let n = s.unicode_len();
    let mut i: usize = 0;
    while i < n
        invariant
            n == s@.len(),
            i <= n,
            out@ == old(out)@ + escape_token(s@.subrange(0, i as int)),
        decreases n - i,
    {
        let c = s.get_char(i);
        assert(s@.subrange(0, i + 1).drop_last() == s@.subrange(0, i as int));
        let u = c as u32;
        if c == '~' {
            out.append("~0");
        } else if c == '/' {
            out.append("~1");
        } else if 0x20 < u && u < 0x7f && c != '"' && c != '<' && c != '>' && c != '`' {
            out.append(s.substring_char(i, i + 1));
            assert(s@.subrange(i as int, i + 1) == seq![c]);
        } else {
            push_percent_encoded(out, c);
        }
        i = i + 1;
    }
    assert(s@.subrange(0, n as int) == s@);
}

/// Appends `%` and the two hexadecimal digits of byte `b`.
fn push_byte(out: &mut String, b: u32)
    requires
        b < 256,
    ensures
        final(out)@ == old(out)@ + "%"@ + hex_digit(b as nat / 16) + hex_digit(b as nat % 16),
{
    let digits = "0123456789ABCDEF";
    proof {
        reveal_strlit("0123456789ABCDEF");
    }
    out.append("%");
    let hi = (b / 16) as usize;
    let lo = (b % 16) as usize;
    out.append(digits.substring_char(hi, hi + 1));
    out.append(digits.substring_char(lo, lo + 1));
}

/// Appends the UTF-8 bytes of `c`, percent-encoded.
fn push_percent_encoded(out: &mut String, c: char)
    ensures
        final(out)@ == old(out)@ + percent_encoded(utf8(c)),
{
    let u = c as u32;
    let ghost bytes = utf8(c);
    let ghost start = out@;
    if u < 0x80 {
        push_byte(out, u);
        assert(bytes.drop_last() =~= Seq::<nat>::empty());
    } else if u < 0x800 {
        push_byte(out, 0xC0 + u / 64);
        push_byte(out, 0x80 + u % 64);
        assert(bytes.drop_last().drop_last() =~= Seq::<nat>::empty());
        assert(bytes.drop_last() =~= seq![0xC0 + u as nat / 64]);
    } else if u < 0x10000 {
        push_byte(out, 0xE0 + u / 4096);
        push_byte(out, 0x80 + (u / 64) % 64);
        push_byte(out, 0x80 + u % 64);
        assert(bytes.drop_last().drop_last().drop_last() =~= Seq::<nat>::empty());
        assert(bytes.drop_last().drop_last() =~= seq![0xE0 + u as nat / 4096]);
        assert(bytes.drop_last() =~= seq![0xE0 + u as nat / 4096, 0x80 + (u as nat / 64) % 64]);
    } else {
        assert(u < 0x110000);
        push_byte(out, 0xF0 + u / 262144);
        push_byte(out, 0x80 + (u / 4096) % 64);
        push_byte(out, 0x80 + (u / 64) % 64);
        push_byte(out, 0x80 + u % 64);
        assert(bytes.drop_last().drop_last().drop_last().drop_last() =~= Seq::<nat>::empty());
        assert(bytes.drop_last().drop_last().drop_last() =~= seq![0xF0 + u as nat / 262144]);
        assert(bytes.drop_last().drop_last() =~= seq![0xF0 + u as nat / 262144, 0x80 + (u as nat / 4096) % 64]);
        assert(bytes.drop_last() =~= seq![0xF0 + u as nat / 262144, 0x80 + (u as nat / 4096) % 64, 0x80 + (u as nat / 64) % 64]);
    }
    proof {
        reveal_with_fuel(percent_encoded, 5);
    }
    assert(out@ =~= start + percent_encoded(bytes));
}

/// Whether two texts are equal.
pub fn str_eq(a: &str, b: &str) -> (r: bool)
    ensures
        r == (a@ == b@),
{
    let n = a.unicode_len();
    if n != b.unicode_len() {
        return false;
    }
    let mut i: usize = 0;
    while i < n
        invariant
            n == a@.len(),
            n == b@.len(),
            i <= n,
            forall|j: int| 0 <= j < i ==> a@[j] == b@[j],
        decreases n - i,
    {
        if a.get_char(i) != b.get_char(i) {
            return false;
        }
        i = i + 1;
    }
    assert(a@ == b@);
    true
}

} // verus!
