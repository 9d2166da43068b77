//! JSON text framing for the request payloads: strings with their escapes,
//! numbers, objects and arrays, each as an exact character sequence.
//! The member order of an object is the order in which the members are
//! given; readers of the text treat objects as unordered.
use vstd::prelude::*;
use crate::text::{dec, join, views, push_char, push_str, push_chars, push_dec, push_join, lit};

verus! {

/// A lowercase hexadecimal digit.
pub open spec fn hex_digit(n: nat) -> char {
    if n < 10 {
        ((n + 48) as u32) as char
    } else {
        ((n + 87) as u32) as char
    }
}

/// The escaped form of one character inside a JSON string: quote and
/// backslash get a backslash, control characters below U+0020 become
/// `\u00XX`, every other character stands as it is.
pub open spec fn esc(c: char) -> Seq<char> {
    if c == '"' {
        seq!['\\', '"']
    } else if c == '\\' {
        seq!['\\', '\\']
    } else if (c as u32) < 0x20 {
        seq!['\\', 'u', '0', '0', hex_digit(((c as u32) / 16) as nat), hex_digit(((c as u32) % 16) as nat)]
    } else {
        seq![c]
    }
}

/// Every character escaped, in order.
pub open spec fn esc_all(s: Seq<char>) -> Seq<char>
    decreases s.len(),
{
    if s.len() == 0 {
        seq![]
    } else {
        esc_all(s.drop_last()) + esc(s.last())
    }
}

/// A JSON string literal holding `s`.
pub open spec fn jstr(s: Seq<char>) -> Seq<char> {
    seq!['"'] + esc_all(s) + seq!['"']
}

/// An object member: the key as a string literal, a colon, the value text.
pub open spec fn jmember(key: Seq<char>, value: Seq<char>) -> Seq<char> {
    jstr(key) + seq![':'] + value
}

/// An object made of the given member texts.
pub open spec fn jobj(members: Seq<Seq<char>>) -> Seq<char> {
    seq!['{'] + join(members, seq![',']) + seq!['}']
}

/// An array made of the given value texts.
pub open spec fn jarr(items: Seq<Seq<char>>) -> Seq<char> {
    seq!['['] + join(items, seq![',']) + seq![']']
}

pub open spec fn jbool(b: bool) -> Seq<char> {
    if b {
        "true"@
    } else {
        "false"@
    }
}

/// A number with exactly `places` digits after the point: `units` counted
/// in steps of `10^-places` (`places` is 1 or 2 here).
pub open spec fn jfixed(units: nat, places: nat) -> Seq<char> {
    if places == 1 {
        dec(units / 10) + seq!['.'] + dec(units % 10)
    } else {
        dec(units / 100) + seq!['.'] + dec((units % 100) / 10) + dec(units % 10)
    }
}

/// `num / den` rounded to `places` decimal places, halves away from zero,
/// in steps of `10^-places`.
pub open spec fn rounded_units(num: nat, den: nat, scale: nat) -> nat
    recommends
        den > 0,
{
    (2 * num * scale + den) / (2 * den)
}

fn hex_char(n: u32) -> (c: char)
    requires
        n < 16,
    ensures
        c == hex_digit(n as nat),
{
    if n < 10 {
        ((n as u8) + 48) as char
    } else {
        ((n as u8) + 87) as char
    }
}

/// Appends the escaped form of one character.
pub fn push_esc(out: &mut String, c: char)
    ensures
        final(out)@ == old(out)@ + esc(c),
{
    if c == '"' {
        push_char(out, '\\');
        push_char(out, '"');
    } else if c == '\\' {
        push_char(out, '\\');
        push_char(out, '\\');
    } else if (c as u32) < 0x20 {
        let u = c as u32;
        push_char(out, '\\');
        push_char(out, 'u');
        push_char(out, '0');
        push_char(out, '0');
        let hi = hex_char(u / 16);
        push_char(out, hi);
        let lo = hex_char(u % 16);
        push_char(out, lo);
    } else {
        push_char(out, c);
    }
    proof {
        assert(out@ =~= old(out)@ + esc(c));
    }
}

/// Appends `s` as a JSON string literal.
pub fn push_jstr(out: &mut String, s: &[char])
    ensures
        final(out)@ == old(out)@ + jstr(s@),
{
    push_char(out, '"');
    let ghost start = out@;
    let mut i: usize = 0;
    assert(esc_all(s@.subrange(0, 0)) =~= Seq::<char>::empty());
    assert(start + Seq::<char>::empty() =~= start);
    while i < s.len()
        invariant
            i <= s@.len(),
            start == old(out)@.push('"'),
            out@ == start + esc_all(s@.subrange(0, i as int)),
        decreases s@.len() - i,
    {
        push_esc(out, s[i]);
        proof {
            let sub = s@.subrange(0, i + 1);
            assert(sub.drop_last() =~= s@.subrange(0, i as int));
            assert(sub.last() == s@[i as int]);
            assert(out@ =~= start + esc_all(sub));
        }
        i = i + 1;
    }
    push_char(out, '"');
    proof {
        assert(s@.subrange(0, s@.len() as int) =~= s@);
        assert(out@ =~= old(out)@ + jstr(s@));
    }
}

/// `s` as a JSON string literal.
pub fn jstr_of(s: &str) -> (r: String)
    ensures
        r@ == jstr(s@),
{
    let v = crate::text::chars_of(s);
    let mut r = String::new();
    push_jstr(&mut r, v.as_slice());
    proof {
        assert(r@ =~= jstr(s@));
    }
    r
}

/// A number as JSON text.
pub fn num_of(n: u64) -> (r: String)
    ensures
        r@ == dec(n as nat),
{
    let mut r = String::new();
    push_dec(&mut r, n);
    proof {
        assert(r@ =~= dec(n as nat));
    }
    r
}

pub fn bool_of(b: bool) -> (r: String)
    ensures
        r@ == jbool(b),
{
    if b {
        lit("true")
    } else {
        lit("false")
    }
}

/// An object member from its key and value text.
pub fn member(key: &str, value: String) -> (r: String)
    ensures
        r@ == jmember(key@, value@),
{
    let mut r = jstr_of(key);
    push_char(&mut r, ':');
    push_str(&mut r, value.as_str());
    proof {
        assert(r@ =~= jmember(key@, value@));
    }
    r
}

/// An object from its member texts.
pub fn obj_of(members: &[String]) -> (r: String)
    ensures
        r@ == jobj(views(members@)),
{
    let mut r = String::new();
    push_char(&mut r, '{');
    push_join(&mut r, members, ",");
    push_char(&mut r, '}');
    proof {
        reveal_strlit(",");
        assert(","@ =~= seq![',']);
        assert(r@ =~= jobj(views(members@)));
    }
    r
}

/// An array from its value texts.
pub fn arr_of(items: &[String]) -> (r: String)
    ensures
        r@ == jarr(views(items@)),
{
    let mut r = String::new();
    push_char(&mut r, '[');
    push_join(&mut r, items, ",");
    push_char(&mut r, ']');
    proof {
        reveal_strlit(",");
        assert(","@ =~= seq![',']);
        assert(r@ =~= jarr(views(items@)));
    }
    r
}

/// Decimal rendering of a `u128`.
fn u128_dec(n: u128) -> (r: Vec<char>)
    ensures
        r@ == dec(n as nat),
    decreases n,
{
    if n < 10 {
        let c = ((n as u8) + 48) as char;
        vec![c]
    } else {
        let mut r = u128_dec(n / 10);
        let c = (((n % 10) as u8) + 48) as char;
        r.push(c);
        r
    }
}

/// `num / den` rounded to one decimal place (halves away from zero) as a
/// number with one digit after the point, such as `10.0` or `4.2`.
pub fn one_place(num: u128, den: u64) -> (r: String)
    requires
        den > 0,
        num <= 0x1_0000_0000_0000_0000_0000_0000,
    ensures
        r@ == jfixed(rounded_units(num as nat, den as nat, 10), 1),
{
    let units: u128 = (2 * num * 10 + den as u128) / (2 * den as u128);
    let mut r = String::new();
    let a = u128_dec(units / 10);
    push_chars(&mut r, a.as_slice());
    push_char(&mut r, '.');
    let b = u128_dec(units % 10);
    push_chars(&mut r, b.as_slice());
    proof {
        assert(r@ =~= jfixed(rounded_units(num as nat, den as nat, 10), 1));
    }
    r
}

/// `num / den` rounded to two decimal places (halves away from zero) as a
/// number with two digits after the point, such as `0.50`.
pub fn two_places(num: u128, den: u64) -> (r: String)
    requires
        den > 0,
        num <= 0x1_0000_0000_0000_0000_0000_0000,
    ensures
        r@ == jfixed(rounded_units(num as nat, den as nat, 100), 2),
{
    let units: u128 = (2 * num * 100 + den as u128) / (2 * den as u128);
    let mut r = String::new();
    let a = u128_dec(units / 100);
    push_chars(&mut r, a.as_slice());
    push_char(&mut r, '.');
    let b = u128_dec((units % 100) / 10);
    push_chars(&mut r, b.as_slice());
    let c = u128_dec(units % 10);
    push_chars(&mut r, c.as_slice());
    proof {
        assert(r@ =~= jfixed(rounded_units(num as nat, den as nat, 100), 2));
    }
    r
}

} // verus!
