use crate::text::{
    chars_of, decimal, is_digit, lemma_decimal_digits, lemma_pieces_concat, lemma_pieces_single,
    parse_unsigned, parse_unsigned_chars, pieces, push_decimal, split_pieces, string_from_chars,
    Separator,
};
use vstd::prelude::*;

verus! {

/// The octet of `ip` at position `k` (0 to 3), position 0 being bits 31 to 24.
pub open spec fn octet(ip: u32, k: int) -> nat {
    if k == 0 {
        ip as nat / 0x100_0000
    } else if k == 1 {
        ip as nat / 0x1_0000 % 0x100
    } else if k == 2 {
        ip as nat / 0x100 % 0x100
    } else {
        ip as nat % 0x100
    }
}

/// The address whose octets, most significant first, are `a`, `b`, `c`, `d`.
pub open spec fn from_octets(a: nat, b: nat, c: nat, d: nat) -> nat {
    a * 0x100_0000 + b * 0x1_0000 + c * 0x100 + d
}

/// Dotted-decimal text of `ip`.
pub open spec fn dotted(ip: u32) -> Seq<char> {
    decimal(octet(ip, 0)) + seq!['.'] + decimal(octet(ip, 1)) + seq!['.'] + decimal(octet(ip, 2))
        + seq!['.'] + decimal(octet(ip, 3))
}

/// The octet that the text `t` denotes, if it reads as an integer of 0 to 255.
pub open spec fn octet_of(t: Seq<char>) -> Option<nat> {
    parse_unsigned(t, 255)
}

/// The address that `s` denotes: exactly four pieces between dots, each an
/// octet.
pub open spec fn decode(s: Seq<char>) -> Option<u32> {
    let p = pieces(s, Separator::Char('.'));
    if p.len() == 4 && octet_of(p[0]) is Some && octet_of(p[1]) is Some && octet_of(p[2]) is Some
        && octet_of(p[3]) is Some {
        Some(
            from_octets(
                octet_of(p[0])->0,
                octet_of(p[1])->0,
                octet_of(p[2])->0,
                octet_of(p[3])->0,
            ) as u32,
        )
    } else {
        None
    }
}

/// Appends the dotted-decimal text of `ip` to `out`.
pub fn push_dotted(out: &mut Vec<char>, ip: u32)
    ensures
        final(out)@ == old(out)@ + dotted(ip),
{
    push_decimal(out, (ip / 0x100_0000) as u64);
    out.push('.');
    push_decimal(out, (ip / 0x1_0000 % 0x100) as u64);
    out.push('.');
    push_decimal(out, (ip / 0x100 % 0x100) as u64);
    out.push('.');
    push_decimal(out, (ip % 0x100) as u64);
    assert(final(out)@ =~= old(out)@ + dotted(ip));
}

/// Dotted-decimal text of `ip`.
pub fn print_ip(ip: u32) -> (r: String)
    ensures
        r@ == dotted(ip),
{
    let mut out: Vec<char> = Vec::new();
    push_dotted(&mut out, ip);
    assert(out@ =~= dotted(ip));
    string_from_chars(&out)
}

/// Decodes dotted-decimal text held as characters.
pub fn decode_chars(s: &Vec<char>) -> (r: Option<u32>)
    ensures
        r == decode(s@),
{
    let parts = split_pieces(s, Separator::Char('.'));
    if parts.len() != 4 {
        return None;
    }
    let a = match parse_unsigned_chars(&parts[0], 255) {
        Some(n) => n,
        None => {
            return None;
        },
    };
    let b = match parse_unsigned_chars(&parts[1], 255) {
        Some(n) => n,
        None => {
            return None;
        },
    };
    let c = match parse_unsigned_chars(&parts[2], 255) {
        Some(n) => n,
        None => {
            return None;
        },
    };
    let d = match parse_unsigned_chars(&parts[3], 255) {
        Some(n) => n,
        None => {
            return None;
        },
    };
    let ip: u32 = (a as u32) * 0x100_0000 + (b as u32) * 0x1_0000 + (c as u32) * 0x100 + (d as u32);
    Some(ip)
}

/// Decodes dotted-decimal text: four dot-separated octets of 0 to 255, and
/// nothing else.
pub fn parse_ipv4(s: &str) -> (r: Option<u32>)
    ensures
        r == decode(s@),
{
    let v = chars_of(s);
    decode_chars(&v)
}

/// The decimal text of an octet reads back as that octet, and holds no dot.
proof fn lemma_octet_text(n: nat)
    requires
        n <= 255,
    ensures
        octet_of(decimal(n)) == Some(n),
        pieces(decimal(n), Separator::Char('.')) == seq![decimal(n)],
{
    let t = decimal(n);
    lemma_decimal_digits(n);
    assert(is_digit(t[0]));
    assert(crate::text::unsigned_digits(t) == t);
    assert forall|i: int| 0 <= i < t.len() implies !Separator::Char('.').separates(
        #[trigger] t[i],
    ) by {
        assert(is_digit(t[i]));
    }
    lemma_pieces_single(t, Separator::Char('.'));
}

/// Decoding the dotted-decimal text of an address gives back that address.
pub proof fn lemma_decode_dotted(ip: u32)
    ensures
        decode(dotted(ip)) == Some(ip),
{
    let o0 = octet(ip, 0);
    let o1 = octet(ip, 1);
    let o2 = octet(ip, 2);
    let o3 = octet(ip, 3);
    assert(o0 <= 255);
    lemma_octet_text(o0);
    lemma_octet_text(o1);
    lemma_octet_text(o2);
    lemma_octet_text(o3);
    let d0 = decimal(o0);
    let d1 = decimal(o1);
    let d2 = decimal(o2);
    let d3 = decimal(o3);
    let x2 = d0 + seq!['.'] + d1;
    let x3 = x2 + seq!['.'] + d2;
    lemma_pieces_concat(d0, '.', d1);
    lemma_pieces_concat(x2, '.', d2);
    lemma_pieces_concat(x3, '.', d3);
    let p = pieces(dotted(ip), Separator::Char('.'));
    assert(p =~= seq![d0, d1, d2, d3]);
    assert(from_octets(o0, o1, o2, o3) == ip as nat) by (nonlinear_arith)
        requires
            o0 == ip as nat / 0x100_0000,
            o1 == ip as nat / 0x1_0000 % 0x100,
            o2 == ip as nat / 0x100 % 0x100,
            o3 == ip as nat % 0x100,
            ip as nat <= 0xffff_ffff,
    ;
}

} // verus!
