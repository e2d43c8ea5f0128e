//! The symbol listing of an assembly.

use vstd::prelude::*;

verus! {

/// The character of a hexadecimal digit.
pub open spec fn hex_digit(d: nat) -> u8 {
    if d < 10 {
        ('0' as u8 + d) as u8
    } else {
        ('a' as u8 + d - 10) as u8
    }
}

/// A number in hexadecimal digits, without leading zeros.
pub open spec fn hex(n: nat) -> Seq<u8>
    decreases n,
{
    if n < 16 {
        seq![hex_digit(n)]
    } else {
        hex(n / 16).push(hex_digit(n % 16))
    }
}

/// A byte as it is listed: an ASCII byte as it is, any other as `?`.
pub open spec fn listed(b: u8) -> u8 {
    if b < 0x80 {
        b
    } else {
        '?' as u8
    }
}

/// The line of one label: its name, ` = 0x`, its address in hexadecimal
/// digits, and a line feed.
pub open spec fn entry_line(name: Seq<u8>, address: usize) -> Seq<u8> {
    Seq::new(name.len(), |i: int| listed(name[i])) + seq![
        ' ' as u8,
        '=' as u8,
        ' ' as u8,
        '0' as u8,
        'x' as u8,
    ] + hex(address as nat) + seq!['\n' as u8]
}

/// The lines of the first `n` labels, in their order. A label that has no
/// address has no line.
pub open spec fn listing(labels: Seq<(Seq<u8>, Option<usize>)>, n: int) -> Seq<u8>
    decreases n,
{
    if n <= 0 {
        Seq::empty()
    } else {
        listing(labels, n - 1) + match labels[n - 1].1 {
            Some(address) => entry_line(labels[n - 1].0, address),
            None => Seq::empty(),
        }
    }
}

/// Whether every byte is an ASCII byte.
pub open spec fn is_ascii(bytes: Seq<u8>) -> bool {
    forall|i: int| 0 <= i < bytes.len() ==> bytes[i] < 0x80
}

/// ASCII bytes as characters.
pub open spec fn chars(bytes: Seq<u8>) -> Seq<char> {
    Seq::new(bytes.len(), |i: int| bytes[i] as char)
}

/// Every hexadecimal digit is an ASCII byte.
pub proof fn lemma_hex_is_ascii(n: nat)
    ensures
        is_ascii(hex(n)),
        hex(n).len() > 0,
    decreases n,
{
    if n >= 16 {
        lemma_hex_is_ascii(n / 16);
    }
}

/// Appends a number in hexadecimal digits.
pub fn push_hex(out: &mut Vec<u8>, n: usize)
    ensures
        final(out)@ == old(out)@ + hex(n as nat),
        is_ascii(old(out)@) ==> is_ascii(final(out)@),
    decreases n,
{
    proof {
        lemma_hex_is_ascii(n as nat);
    }
    if n >= 16 {
        push_hex(out, n / 16);
    }
    let d = (n % 16) as u8;
    let digit = if d < 10 {
        '0' as u8 + d
    } else {
        'a' as u8 + (d - 10)
    };
    out.push(digit);
    assert(out@ =~= old(out)@ + hex(n as nat));
}

/// Appends the line of one label.
pub fn push_entry(out: &mut Vec<u8>, name: &[u8], address: usize)
    ensures
        final(out)@ == old(out)@ + entry_line(name@, address),
        is_ascii(old(out)@) ==> is_ascii(final(out)@),
{
    let ghost head = out@;
    let mut i: usize = 0;
    while i < name.len()
        invariant
            i <= name@.len(),
            is_ascii(head) ==> is_ascii(out@),
            out@ == head + Seq::new(i as nat, |k: int| listed(name@[k])),
        decreases name@.len() - i,
    {
        let b = name[i];
        out.push(if b < 0x80 { b } else { '?' as u8 });
        i += 1;
        assert(out@ =~= head + Seq::new(i as nat, |k: int| listed(name@[k])));
    }
    out.push(' ' as u8);
    out.push('=' as u8);
    out.push(' ' as u8);
    out.push('0' as u8);
    out.push('x' as u8);
    push_hex(out, address);
    out.push('\n' as u8);
    assert(out@ =~= head + entry_line(name@, address));
}

/// The text that ASCII bytes spell.
///
/// Calls `String::from_utf8`. ASCII bytes are valid UTF-8, in which each
/// byte is the character with its code.
#[verifier::external_body]
pub(crate) fn ascii_text(bytes: Vec<u8>) -> (text: String)
    requires
        is_ascii(bytes@),
    ensures
        text@ == chars(bytes@),
{
    String::from_utf8(bytes).unwrap_or_default()
}

} // verus!
