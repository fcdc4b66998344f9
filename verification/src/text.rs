//! Character- and string-level helpers shared by the whole library.

use vstd::prelude::*;

verus! {

/// The Unicode `White_Space` property, which is what `char::is_whitespace`
/// tests.
pub open spec fn is_white_space(c: char) -> bool {
    let v = c as u32;
    ||| 0x09 <= v <= 0x0d
    ||| v == 0x20
    ||| v == 0x85
    ||| v == 0xa0
    ||| v == 0x1680
    ||| 0x2000 <= v <= 0x200a
    ||| v == 0x2028
    ||| v == 0x2029
    ||| v == 0x202f
    ||| v == 0x205f
    ||| v == 0x3000
}

/// Does `c` have the Unicode `White_Space` property?
pub fn is_whitespace(c: char) -> (r: bool)
    ensures
        r == is_white_space(c),
{
    let v = c as u32;
    (0x09 <= v && v <= 0x0d) || v == 0x20 || v == 0x85 || v == 0xa0 || v == 0x1680 || (0x2000
        <= v && v <= 0x200a) || v == 0x2028 || v == 0x2029 || v == 0x202f || v == 0x205f || v
        == 0x3000
}

} // verus!

verus! {

/// Do the two strings hold the same characters?
pub fn equals(a: &str, b: &str) -> (r: bool)
    ensures
        r == (a@ == b@),
{
    a.to_string() == b.to_string()
}

/// Does `s` begin with `prefix`?
pub fn starts_with(s: &str, prefix: &str) -> (r: bool)
    ensures
        r == (prefix@.len() <= s@.len() && s@.subrange(0, prefix@.len() as int) == prefix@),
{
    let n = prefix.unicode_len();
    let m = s.unicode_len();
    if n > m {
        return false;
    }
    let mut i: usize = 0;
    while i < n
        invariant
            n == prefix@.len(),
            m == s@.len(),
            n <= m,
            i <= n,
            forall|j: int| 0 <= j < i ==> s@[j] == prefix@[j],
        decreases n - i,
    {
        if s.get_char(i) != prefix.get_char(i) {
            assert(s@.subrange(0, n as int)[i as int] != prefix@[i as int]);
            return false;
        }
        i = i + 1;
    }
    assert(s@.subrange(0, n as int) =~= prefix@);
    true
}

/// `s` with every occurrence of `pattern` replaced by `replacement`,
/// scanning left to right without overlaps
pub open spec fn replace_all(s: Seq<char>, pattern: Seq<char>, replacement: Seq<char>) -> Seq<char>
    recommends
        pattern.len() > 0,
    decreases s.len(),
{
    if s.len() == 0 || pattern.len() == 0 {
        s
    } else if pattern.len() <= s.len() && s.subrange(0, pattern.len() as int) == pattern {
        replacement + replace_all(s.subrange(pattern.len() as int, s.len() as int), pattern, replacement)
    } else {
        seq![s[0]] + replace_all(s.subrange(1, s.len() as int), pattern, replacement)
    }
}

/// Does `s` hold `pattern` at position `i`?
fn matches_at(s: &str, pattern: &str, i: usize) -> (r: bool)
    requires
        i <= s@.len(),
    ensures
        r == (pattern@.len() <= s@.len() - i && s@.subrange(i as int, i + pattern@.len()) == pattern@),
{
    let rest = s.substring_char(i, s.unicode_len());
    let r = starts_with(rest, pattern);
    proof {
        if pattern@.len() <= s@.len() - i {
            assert(rest@.subrange(0, pattern@.len() as int) =~= s@.subrange(i as int, i + pattern@.len()));
        }
    }
    r
}

/// Replace every occurrence of a non-empty `pattern` in `s`
pub fn replace(s: &str, pattern: &str, replacement: &str) -> (r: String)
    requires
        pattern@.len() > 0,
    ensures
        r@ == replace_all(s@, pattern@, replacement@),
{
    let n = s.unicode_len();
    let p = pattern.unicode_len();
    let mut out = String::new();
    let mut i: usize = 0;
    assert(s@.subrange(0, n as int) =~= s@);
    assert(out@ + replace_all(s@, pattern@, replacement@) =~= replace_all(s@, pattern@, replacement@));
    while i < n
        invariant
            n == s@.len(),
            p == pattern@.len(),
            p > 0,
            i <= n,
            out@ + replace_all(s@.subrange(i as int, n as int), pattern@, replacement@) == replace_all(s@, pattern@, replacement@),
        decreases n - i,
    {
        let ghost rest = s@.subrange(i as int, n as int);
        if matches_at(s, pattern, i) {
            assert(rest.subrange(0, p as int) =~= s@.subrange(i as int, i + p));
            assert(rest.subrange(p as int, rest.len() as int) =~= s@.subrange(i + p, n as int));
            out.append(replacement);
            assert(out@ + replace_all(s@.subrange(i + p, n as int), pattern@, replacement@) =~= replace_all(s@, pattern@, replacement@));
            i = i + p;
        } else {
            assert(rest.subrange(1, rest.len() as int) =~= s@.subrange(i + 1, n as int));
            assert(!(p <= rest.len() && rest.subrange(0, p as int) == pattern@)) by {
                if p <= rest.len() && rest.subrange(0, p as int) == pattern@ {
                    assert(rest.subrange(0, p as int) =~= s@.subrange(i as int, i + p));
                }
            }
            out.append(s.substring_char(i, i + 1));
            assert(s@.subrange(i as int, i + 1) =~= seq![rest[0]]);
            assert(out@ + replace_all(s@.subrange(i + 1, n as int), pattern@, replacement@) =~= replace_all(s@, pattern@, replacement@));
            i = i + 1;
        }
    }
    assert(s@.subrange(n as int, n as int) =~= Seq::<char>::empty());
    assert(out@ =~= replace_all(s@, pattern@, replacement@));
    out
}

/// The character of a decimal digit
pub open spec fn digit_char(d: nat) -> char {
    (('0' as u32) + d) as char
}

/// The decimal text of a natural number
pub open spec fn decimal(n: nat) -> Seq<char>
    decreases n,
{
    if n < 10 {
        seq![digit_char(n)]
    } else {
        decimal(n / 10) + seq![digit_char(n % 10)]
    }
}

/// The decimal text of an integer, with a leading `-` when negative
pub open spec fn signed_decimal(n: int) -> Seq<char> {
    if n < 0 {
        seq!['-'] + decimal((-n) as nat)
    } else {
        decimal(n as nat)
    }
}

fn digit_text(d: u64) -> (r: &'static str)
    requires
        d < 10,
    ensures
        r@ == seq![digit_char(d as nat)],
{
    let r = match d {
        0 => "0",
        1 => "1",
        2 => "2",
        3 => "3",
        4 => "4",
        5 => "5",
        6 => "6",
        7 => "7",
        8 => "8",
        _ => "9",
    };
    proof {
        reveal_strlit("0");
        reveal_strlit("1");
        reveal_strlit("2");
        reveal_strlit("3");
        reveal_strlit("4");
        reveal_strlit("5");
        reveal_strlit("6");
        reveal_strlit("7");
        reveal_strlit("8");
        reveal_strlit("9");
        assert(r@ =~= seq![digit_char(d as nat)]);
    }
    r
}

/// The decimal text of `n`
pub fn natural_text(n: u64) -> (r: String)
    ensures
        r@ == decimal(n as nat),
    decreases n,
{
    if n < 10 {
        digit_text(n).to_string()
    } else {
        let mut r = natural_text(n / 10);
        r.append(digit_text(n % 10));
        r
    }
}

/// The decimal text of `n`, with a leading `-` when negative
pub fn integer_text(n: i32) -> (r: String)
    ensures
        r@ == signed_decimal(n as int),
{
    if n < 0 {
        let magnitude = (0i64 - n as i64) as u64;
        let mut r = "-".to_string();
        r.append(natural_text(magnitude).as_str());
        proof {
            reveal_strlit("-");
        }
        r
    } else {
        natural_text(n as u64)
    }
}

} // verus!

verus! {

/// `s` without its trailing whitespace
pub open spec fn trim_end(s: Seq<char>) -> Seq<char>
    decreases s.len(),
{
    if s.len() > 0 && is_white_space(s.last()) {
        trim_end(s.drop_last())
    } else {
        s
    }
}

/// `std::str::from_utf8`: the text of the bytes where they are valid UTF-8
#[verifier::external_body]
fn utf8_text(bytes: &[u8]) -> (r: Option<String>)
    ensures
        r is Some <==> vstd::utf8::valid_utf8(bytes@),
        r matches Some(s) ==> s@ == vstd::utf8::decode_utf8(bytes@),
{
    match std::str::from_utf8(bytes) {
        Ok(s) => Some(s.to_string()),
        Err(_) => None,
    }
}

/// The text a command printed, without trailing whitespace; none where its
/// output is not UTF-8
pub fn command_output(stdout: &Vec<u8>) -> (r: Option<String>)
    ensures
        r is Some <==> vstd::utf8::valid_utf8(stdout@),
        r matches Some(s) ==> s@ == trim_end(vstd::utf8::decode_utf8(stdout@)),
{
    let text = match utf8_text(stdout.as_slice()) {
        Some(t) => t,
        None => {
            return None;
        },
    };
    let ghost full = text@;
    let n = text.as_str().unicode_len();
    let mut end: usize = n;
    let mut trimmed = false;
    assert(full.subrange(0, n as int) =~= full);
    while end > 0 && !trimmed
        invariant
            n == full.len(),
            full == text@,
            end <= n,
            trim_end(full.subrange(0, end as int)) == trim_end(full),
            trimmed ==> end > 0 && !is_white_space(full[end - 1]),
        decreases end + (if trimmed { 0int } else { 1int }),
    {
        if is_whitespace(text.as_str().get_char(end - 1)) {
            assert(full.subrange(0, end as int).drop_last() =~= full.subrange(0, end - 1));
            end = end - 1;
        } else {
            trimmed = true;
        }
    }
    let ghost kept = full.subrange(0, end as int);
    proof {
        if end > 0 {
            assert(kept.last() == full[end - 1]);
        } else {
            assert(kept =~= Seq::<char>::empty());
        }
        assert(trim_end(kept) == kept);
    }
    Some(text.as_str().substring_char(0, end).to_string())
}

} // verus!
