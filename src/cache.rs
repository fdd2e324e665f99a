use vstd::prelude::*;
use vstd::string::*;
use crate::fingerprint::{append_part, chars_of, decimal, decimal_string, digit, part};
use crate::runner::{join_path, joined_path};

verus! {

/// The metadata of a cache entry.
pub struct CacheMeta {
    pub exit_code: i32,
    pub task_name: String,
    /// Seconds since the epoch when the entry was stored.
    pub timestamp: u64,
    /// The digest of the task's inputs when the entry was stored.
    pub input_digest: String,
}

/// An exit code in decimal, with `-` before a negative one.
pub open spec fn code_text(c: i32) -> Seq<char> {
    if c < 0 {
        seq!['-'] + decimal((-c) as nat)
    } else {
        decimal(c as nat)
    }
}

/// The text of the `meta` file of an entry.
pub open spec fn meta_text(m: CacheMeta) -> Seq<char> {
    part(m.task_name@) + part(m.input_digest@) + part(decimal(m.timestamp as nat)) + part(
        code_text(m.exit_code),
    )
}

/// Two metadata records that say the same.
pub open spec fn same_meta(a: CacheMeta, b: CacheMeta) -> bool {
    &&& a.exit_code == b.exit_code
    &&& a.task_name@ == b.task_name@
    &&& a.timestamp == b.timestamp
    &&& a.input_digest@ == b.input_digest@
}

pub open spec fn is_digit(c: char) -> bool {
    '0' as u32 <= c as u32 <= '9' as u32
}

pub open spec fn digit_value(c: char) -> nat {
    (c as u32 - '0' as u32) as nat
}

/// The number that a run of digits spells.
pub open spec fn digits_value(s: Seq<char>) -> nat
    decreases s.len(),
{
    if s.len() == 0 {
        0
    } else {
        digits_value(s.drop_last()) * 10 + digit_value(s.last())
    }
}

/// At `pos`, `chars` holds the part of `s`.
pub open spec fn part_at(chars: Seq<char>, pos: int, s: Seq<char>) -> bool {
    &&& 0 <= pos
    &&& pos + part(s).len() <= chars.len()
    &&& chars.subrange(pos, pos + part(s).len()) == part(s)
}

proof fn lemma_digit(d: nat)
    requires
        d < 10,
    ensures
        is_digit(digit(d)),
        digit_value(digit(d)) == d,
{
    let t = seq!['0', '1', '2', '3', '4', '5', '6', '7', '8', '9'];
    assert(t[0] == '0' && t[1] == '1' && t[2] == '2' && t[3] == '3' && t[4] == '4');
    assert(t[5] == '5' && t[6] == '6' && t[7] == '7' && t[8] == '8' && t[9] == '9');
}

pub proof fn lemma_decimal(n: nat)
    ensures
        decimal(n).len() > 0,
        forall|i: int| 0 <= i < decimal(n).len() ==> is_digit(#[trigger] decimal(n)[i]),
        digits_value(decimal(n)) == n,
        forall|k: int| 0 <= k <= decimal(n).len() ==> #[trigger] digits_value(decimal(n).subrange(0, k)) <= n,
        canonical_digits(decimal(n)),
    decreases n,
{
    if n < 10 {
        lemma_digit(n);
        assert(decimal(n).drop_last() =~= Seq::<char>::empty());
        assert(digits_value(Seq::<char>::empty()) == 0);
        assert(digits_value(decimal(n)) == digits_value(decimal(n).drop_last()) * 10 + digit_value(decimal(n).last()));
        assert forall|k: int| 0 <= k <= decimal(n).len() implies #[trigger] digits_value(decimal(n).subrange(0, k)) <= n by {
            if k == 0 {
                assert(decimal(n).subrange(0, k) =~= Seq::<char>::empty());
            } else {
                assert(decimal(n).subrange(0, k) =~= decimal(n));
            }
        }
    } else {
        lemma_decimal(n / 10);
        lemma_digit(n % 10);
        let p = decimal(n / 10);
        let d = decimal(n);
        assert(d.drop_last() =~= p);
        vstd::arithmetic::div_mod::lemma_fundamental_div_mod(n as int, 10);
        assert forall|i: int| 0 <= i < d.len() implies is_digit(#[trigger] d[i]) by {
            if i < p.len() {
                assert(d[i] == p[i]);
            }
        }
        assert forall|k: int| 0 <= k <= d.len() implies #[trigger] digits_value(d.subrange(0, k)) <= n by {
            if k == d.len() {
                assert(d.subrange(0, k) =~= d);
            } else {
                assert(d.subrange(0, k) =~= p.subrange(0, k));
                assert(digits_value(p.subrange(0, k)) <= n / 10);
            }
        }
        assert(d[0] == p[0]);
        if n / 10 < 10 {
            lemma_digit(n / 10);
            assert(n / 10 >= 1);
            assert(digit_value(p[0]) == n / 10);
            vstd::utf8::char_u32_cast('0', '0' as u32);
        } else {
            lemma_decimal((n / 10) / 10);
            assert(p.len() >= 2);
        }
    }
}

/// A run of digits as `decimal` writes it: non-empty, without a leading zero.
pub open spec fn canonical_digits(s: Seq<char>) -> bool {
    &&& s.len() > 0
    &&& forall|i: int| 0 <= i < s.len() ==> is_digit(#[trigger] s[i])
    &&& (s.len() == 1 || s[0] != '0')
}

proof fn lemma_digit_back(c: char)
    requires
        is_digit(c),
    ensures
        digit_value(c) < 10,
        digit(digit_value(c)) == c,
{
    let t = seq!['0', '1', '2', '3', '4', '5', '6', '7', '8', '9'];
    assert(t[0] == '0' && t[1] == '1' && t[2] == '2' && t[3] == '3' && t[4] == '4');
    assert(t[5] == '5' && t[6] == '6' && t[7] == '7' && t[8] == '8' && t[9] == '9');
    vstd::utf8::char_u32_cast(c, c as u32);
    let d = digit_value(c);
    if d == 0 { assert(c as u32 == '0' as u32); vstd::utf8::char_u32_cast('0', '0' as u32); }
    else if d == 1 { vstd::utf8::char_u32_cast('1', '1' as u32); }
    else if d == 2 { vstd::utf8::char_u32_cast('2', '2' as u32); }
    else if d == 3 { vstd::utf8::char_u32_cast('3', '3' as u32); }
    else if d == 4 { vstd::utf8::char_u32_cast('4', '4' as u32); }
    else if d == 5 { vstd::utf8::char_u32_cast('5', '5' as u32); }
    else if d == 6 { vstd::utf8::char_u32_cast('6', '6' as u32); }
    else if d == 7 { vstd::utf8::char_u32_cast('7', '7' as u32); }
    else if d == 8 { vstd::utf8::char_u32_cast('8', '8' as u32); }
    else { vstd::utf8::char_u32_cast('9', '9' as u32); }
}

proof fn lemma_leading_value(s: Seq<char>)
    requires
        s.len() > 0,
        forall|i: int| 0 <= i < s.len() ==> is_digit(#[trigger] s[i]),
        s[0] != '0',
    ensures
        digits_value(s) >= 1,
    decreases s.len(),
{
    if s.len() == 1 {
        assert(s.drop_last().len() == 0);
        vstd::utf8::char_u32_cast(s[0], s[0] as u32);
        vstd::utf8::char_u32_cast('0', '0' as u32);
    } else {
        lemma_leading_value(s.drop_last());
    }
}

/// A canonical run of digits is what `decimal` writes for its value.
proof fn lemma_canonical_decimal(s: Seq<char>)
    requires
        canonical_digits(s),
    ensures
        decimal(digits_value(s)) == s,
    decreases s.len(),
{
    let c = s.last();
    lemma_digit_back(c);
    if s.len() == 1 {
        assert(s.drop_last() =~= Seq::<char>::empty());
        assert(digits_value(Seq::<char>::empty()) == 0);
        assert(digits_value(s) == digits_value(s.drop_last()) * 10 + digit_value(c));
        assert(digits_value(s) == digit_value(c));
        assert(decimal(digits_value(s)) =~= s);
    } else {
        let p = s.drop_last();
        assert forall|i: int| 0 <= i < p.len() implies is_digit(#[trigger] p[i]) by {
            assert(p[i] == s[i]);
        }
        lemma_leading_value(p);
        lemma_canonical_decimal(p);
        let v = digits_value(s);
        assert(v == digits_value(p) * 10 + digit_value(c));
        assert(v / 10 == digits_value(p) && v % 10 == digit_value(c)) by (nonlinear_arith)
            requires v == digits_value(p) * 10 + digit_value(c), digit_value(c) < 10;
        assert(decimal(v) =~= s);
    }
}

/// What a part at `pos` shows: a run of digits spelling the length, `:`, then
/// the text.
pub proof fn lemma_part_at(chars: Seq<char>, pos: int, s: Seq<char>)
    requires
        part_at(chars, pos, s),
    ensures
        forall|i: int| pos <= i < pos + decimal(s.len()).len() ==> is_digit(#[trigger] chars[i]),
        chars[pos + decimal(s.len()).len()] == ':',
        !is_digit(':'),
        forall|k: int| pos <= k <= pos + decimal(s.len()).len() ==> #[trigger] digits_value(chars.subrange(pos, k)) <= s.len(),
        digits_value(chars.subrange(pos, pos + decimal(s.len()).len())) == s.len(),
        chars.subrange(pos + decimal(s.len()).len() + 1, pos + part(s).len()) == s,
        part(s).len() == decimal(s.len()).len() + 1 + s.len(),
{
    let d = decimal(s.len());
    let l = d.len() as int;
    lemma_decimal(s.len());
    let window = chars.subrange(pos, pos + part(s).len());
    assert(window == part(s));
    assert forall|i: int| pos <= i < pos + l implies is_digit(#[trigger] chars[i]) by {
        assert(chars[i] == window[i - pos]);
        assert(window[i - pos] == d[i - pos]);
    }
    assert(chars[pos + l] == window[l]);
    assert forall|k: int| pos <= k <= pos + l implies #[trigger] digits_value(chars.subrange(pos, k)) <= s.len() by {
        assert(chars.subrange(pos, k) =~= d.subrange(0, k - pos));
    }
    assert(chars.subrange(pos, pos + l) =~= d);
    assert forall|i: int| 0 <= i < s.len() implies chars.subrange(pos + l + 1, pos + part(s).len())[i] == s[i] by {
        assert(chars[pos + l + 1 + i] == window[l + 1 + i]);
        assert(part(s)[l + 1 + i] == s[i]);
    }
    assert(chars.subrange(pos + l + 1, pos + part(s).len()) =~= s);
}

/// One text holds at most one part at a position.
pub proof fn lemma_part_unique(chars: Seq<char>, pos: int, x: Seq<char>, y: Seq<char>)
    requires
        part_at(chars, pos, x),
        part_at(chars, pos, y),
    ensures
        x == y,
{
    lemma_part_at(chars, pos, x);
    lemma_part_at(chars, pos, y);
    let lx = decimal(x.len()).len() as int;
    let ly = decimal(y.len()).len() as int;
    if lx < ly {
        assert(is_digit(chars[pos + lx]));
    } else if ly < lx {
        assert(is_digit(chars[pos + ly]));
    }
}

fn is_digit_char(c: char) -> (r: bool)
    ensures
        r == is_digit(c),
{
    '0' as u32 <= c as u32 && c as u32 <= '9' as u32
}

/// Reads the part at `pos`: the text and the position after it.
fn read_part(text: &str, chars: &Vec<char>, pos: usize) -> (r: Option<(String, usize)>)
    requires
        chars@ == text@,
    ensures
        forall|s: Seq<char>| #[trigger] part_at(chars@, pos as int, s) ==> (r is Some && r->Some_0.0@ == s
            && r->Some_0.1 == pos + part(s).len()),
        r is Some ==> part_at(chars@, pos as int, r->Some_0.0@) && r->Some_0.1 == pos + part(r->Some_0.0@).len(),
{
    let n = chars.len();
    if pos > n {
        return None;
    }
    let mut j: usize = pos;
    let mut value: u64 = 0;
    while j < n && is_digit_char(chars[j])
        invariant
            pos <= j <= n,
            n == chars@.len(),
            value == digits_value(chars@.subrange(pos as int, j as int)),
            forall|i: int| pos <= i < j ==> is_digit(#[trigger] chars@[i]),
        decreases n - j,
    {
        let d = (chars[j] as u32 - '0' as u32) as u64;
        assert(chars@.subrange(pos as int, j + 1).drop_last() =~= chars@.subrange(pos as int, j as int));
        if value > (u64::MAX - d) / 10 {
            proof {
                assert forall|s: Seq<char>| !#[trigger] part_at(chars@, pos as int, s) by {
                    if part_at(chars@, pos as int, s) {
                        lemma_part_at(chars@, pos as int, s);
                        let l = decimal(s.len()).len() as int;
                        if j >= pos + l {
                            assert(is_digit(chars@[pos + l]));
                        }
                        assert(digits_value(chars@.subrange(pos as int, j + 1)) <= s.len());
                        assert(s.len() <= n);
                        assert(value * 10 + d > u64::MAX) by (nonlinear_arith)
                            requires value > (u64::MAX - d) / 10, d <= 9;
                    }
                }
            }
            return None;
        }
        assert(value * 10 + d <= u64::MAX) by (nonlinear_arith)
            requires value <= (u64::MAX - d) / 10, d <= 9;
        value = value * 10 + d;
        j = j + 1;
    }
    proof {
        assert forall|s: Seq<char>| #[trigger] part_at(chars@, pos as int, s) implies j == pos + decimal(s.len()).len() by {
            lemma_part_at(chars@, pos as int, s);
            let l = decimal(s.len()).len() as int;
            if j > pos + l {
                assert(is_digit(chars@[pos + l]));
            }
        }
    }
    if j == pos || j >= n || chars[j] != ':' || (j - pos > 1 && chars[pos] == '0') {
        proof {
            assert forall|s: Seq<char>| !#[trigger] part_at(chars@, pos as int, s) by {
                if part_at(chars@, pos as int, s) {
                    lemma_part_at(chars@, pos as int, s);
                    lemma_decimal(s.len());
                    let l = decimal(s.len()).len() as int;
                    assert(chars@.subrange(pos as int, pos + l) =~= decimal(s.len()));
                    assert(chars@[pos as int] == decimal(s.len())[0]);
                }
            }
        }
        return None;
    }
    let start = j + 1;
    if value > (n - start) as u64 {
        proof {
            assert forall|s: Seq<char>| !#[trigger] part_at(chars@, pos as int, s) by {
                if part_at(chars@, pos as int, s) {
                    lemma_part_at(chars@, pos as int, s);
                }
            }
        }
        return None;
    }
    let end = start + value as usize;
    let s = String::from_str(text.substring_char(start, end));
    proof {
        let digits = chars@.subrange(pos as int, j as int);
        assert forall|i: int| 0 <= i < digits.len() implies is_digit(#[trigger] digits[i]) by {
            assert(digits[i] == chars@[pos + i]);
        }
        assert(canonical_digits(digits));
        lemma_canonical_decimal(digits);
        assert(part(s@) =~= digits + seq![':'] + s@);
        assert(chars@.subrange(pos as int, end as int) =~= digits + seq![':'] + s@);
        assert forall|t: Seq<char>| #[trigger] part_at(chars@, pos as int, t) implies s@ == t && end == pos + part(t).len() by {
            lemma_part_at(chars@, pos as int, t);
        }
    }
    Some((s, end))
}

/// Reads a run of digits as a number.
fn parse_nat(chars: &Vec<char>) -> (r: Option<u64>)
    ensures
        forall|n: u64| chars@ == #[trigger] decimal(n as nat) ==> r == Some(n),
        r is Some ==> chars@ == decimal(r->Some_0 as nat),
{
    let len = chars.len();
    if len == 0 || (len > 1 && chars[0] == '0') {
        proof {
            assert forall|n: u64| chars@ != #[trigger] decimal(n as nat) by {
                lemma_decimal(n as nat);
            }
        }
        return None;
    }
    let mut j: usize = 0;
    let mut value: u64 = 0;
    while j < len
        invariant
            j <= len,
            len == chars@.len(),
            len > 0,
            len == 1 || chars@[0] != '0',
            value == digits_value(chars@.subrange(0, j as int)),
            forall|i: int| 0 <= i < j ==> is_digit(#[trigger] chars@[i]),
        decreases len - j,
    {
        assert(chars@.subrange(0, j + 1).drop_last() =~= chars@.subrange(0, j as int));
        if !is_digit_char(chars[j]) {
            proof {
                assert forall|n: u64| chars@ != #[trigger] decimal(n as nat) by {
                    lemma_decimal(n as nat);
                }
            }
            return None;
        }
        let d = (chars[j] as u32 - '0' as u32) as u64;
        if value > (u64::MAX - d) / 10 {
            proof {
                assert forall|n: u64| chars@ != #[trigger] decimal(n as nat) by {
                    lemma_decimal(n as nat);
                    if chars@ == decimal(n as nat) {
                        assert(digits_value(decimal(n as nat).subrange(0, j + 1)) <= n);
                        assert(value * 10 + d > u64::MAX) by (nonlinear_arith)
                            requires value > (u64::MAX - d) / 10, d <= 9;
                    }
                }
            }
            return None;
        }
        assert(value * 10 + d <= u64::MAX) by (nonlinear_arith)
            requires value <= (u64::MAX - d) / 10, d <= 9;
        value = value * 10 + d;
        j = j + 1;
    }
    proof {
        assert(chars@.subrange(0, len as int) =~= chars@);
        assert forall|n: u64| chars@ == #[trigger] decimal(n as nat) implies value == n by {
            lemma_decimal(n as nat);
        }
        lemma_canonical_decimal(chars@);
    }
    Some(value)
}

/// Reads an exit code written by `code_text`.
fn parse_code(text: &str, chars: &Vec<char>) -> (r: Option<i32>)
    requires
        chars@ == text@,
    ensures
        forall|c: i32| chars@ == #[trigger] code_text(c) ==> r == Some(c),
        r is Some ==> chars@ == code_text(r->Some_0),
{
    let len = chars.len();
    if len > 0 && chars[0] == '-' {
        let rest = chars_of(text.substring_char(1, len));
        assert(rest@ == chars@.subrange(1, len as int));
        let v = parse_nat(&rest);
        proof {
            assert forall|c: i32| chars@ == #[trigger] code_text(c) implies c < 0 && rest@ == decimal((-c) as nat) by {
                lemma_decimal(c as nat);
                if c >= 0 {
                    assert(is_digit(decimal(c as nat)[0]));
                }
                assert(rest@ =~= decimal((-c) as nat));
            }
        }
        match v {
            Some(n) => {
                if n >= 1 && n <= 2147483648 {
                    let c: i32 = (0 - (n as i64)) as i32;
                    assert(chars@ =~= seq!['-'] + rest@);
                    Some(c)
                } else {
                    None
                }
            },
            None => None,
        }
    } else {
        let v = parse_nat(chars);
        proof {
            assert forall|c: i32| chars@ == #[trigger] code_text(c) implies c >= 0 by {
                lemma_decimal((-c) as nat);
                if c < 0 {
                    assert(chars@[0] == '-');
                }
            }
        }
        match v {
            Some(n) => {
                if n <= 2147483647 {
                    Some(n as i32)
                } else {
                    None
                }
            },
            None => None,
        }
    }
}

/// The text of the `meta` file for `meta`.
pub fn encode_meta(meta: &CacheMeta) -> (r: String)
    ensures
        r@ == meta_text(*meta),
{
    let mut r = String::new();
    append_part(&mut r, meta.task_name.as_str());
    append_part(&mut r, meta.input_digest.as_str());
    let t = decimal_string(meta.timestamp);
    append_part(&mut r, t.as_str());
    let mut code = String::new();
    if meta.exit_code < 0 {
        proof {
            reveal_strlit("-");
        }
        code.append("-");
        let m = decimal_string((0 - (meta.exit_code as i64)) as u64);
        code.append(m.as_str());
    } else {
        code = decimal_string(meta.exit_code as u64);
    }
    assert(code@ =~= code_text(meta.exit_code));
    append_part(&mut r, code.as_str());
    assert(r@ =~= meta_text(*meta));
    r
}

/// Reads the text of a `meta` file; what `encode_meta` wrote reads back as
/// the same record.
pub fn parse_meta(text: &String) -> (r: Option<CacheMeta>)
    ensures
        forall|m: CacheMeta| text@ == #[trigger] meta_text(m) ==> (r is Some && same_meta(r->Some_0, m)),
        r is Some ==> text@ == meta_text(r->Some_0),
{
    let chars = chars_of(text.as_str());
    let (task_name, at_digest) = match read_part(text.as_str(), &chars, 0) {
        Some(x) => x,
        None => {
            proof {
                assert forall|m: CacheMeta| text@ != #[trigger] meta_text(m) by {
                    if text@ == meta_text(m) {
                        assert(chars@.subrange(0, part(m.task_name@).len() as int) =~= part(m.task_name@));
                        assert(part_at(chars@, 0, m.task_name@));
                    }
                }
            }
            return None;
        },
    };
    let (input_digest, at_stamp) = match read_part(text.as_str(), &chars, at_digest) {
        Some(x) => x,
        None => {
            proof {
                assert forall|m: CacheMeta| text@ != #[trigger] meta_text(m) by {
                    if text@ == meta_text(m) {
                        lemma_fields(chars@, m);
                    }
                }
            }
            return None;
        },
    };
    let (stamp, at_code) = match read_part(text.as_str(), &chars, at_stamp) {
        Some(x) => x,
        None => {
            proof {
                assert forall|m: CacheMeta| text@ != #[trigger] meta_text(m) by {
                    if text@ == meta_text(m) {
                        lemma_fields(chars@, m);
                    }
                }
            }
            return None;
        },
    };
    let (code, at_end) = match read_part(text.as_str(), &chars, at_code) {
        Some(x) => x,
        None => {
            proof {
                assert forall|m: CacheMeta| text@ != #[trigger] meta_text(m) by {
                    if text@ == meta_text(m) {
                        lemma_fields(chars@, m);
                    }
                }
            }
            return None;
        },
    };
    let stamp_chars = chars_of(stamp.as_str());
    let code_chars = chars_of(code.as_str());
    let timestamp = parse_nat(&stamp_chars);
    let exit_code = parse_code(code.as_str(), &code_chars);
    proof {
        assert forall|m: CacheMeta| text@ == #[trigger] meta_text(m) implies task_name@ == m.task_name@
            && input_digest@ == m.input_digest@ && stamp@ == decimal(m.timestamp as nat) && code@ == code_text(m.exit_code)
            && at_end == chars@.len() by {
            lemma_fields(chars@, m);
        }
    }
    if at_end != chars.len() {
        return None;
    }
    match (timestamp, exit_code) {
        (Some(timestamp), Some(exit_code)) => {
            let m = CacheMeta { exit_code, task_name, timestamp, input_digest };
            proof {
                let a = part(m.task_name@);
                let b = part(m.input_digest@);
                let c = part(decimal(m.timestamp as nat));
                let d = part(code_text(m.exit_code));
                assert(chars@.subrange(0, at_digest as int) == a);
                assert(chars@.subrange(at_digest as int, at_stamp as int) == b);
                assert(chars@.subrange(at_stamp as int, at_code as int) == c);
                assert(chars@.subrange(at_code as int, at_end as int) == d);
                assert(chars@ =~= a + b + c + d);
            }
            Some(m)
        },
        _ => None,
    }
}

/// Where each field of a metadata text stands.
proof fn lemma_fields(chars: Seq<char>, m: CacheMeta)
    requires
        chars == meta_text(m),
    ensures
        part_at(chars, 0, m.task_name@),
        part_at(chars, part(m.task_name@).len() as int, m.input_digest@),
        part_at(chars, (part(m.task_name@).len() + part(m.input_digest@).len()) as int, decimal(m.timestamp as nat)),
        part_at(
            chars,
            (part(m.task_name@).len() + part(m.input_digest@).len() + part(decimal(m.timestamp as nat)).len()) as int,
            code_text(m.exit_code),
        ),
        chars.len() == part(m.task_name@).len() + part(m.input_digest@).len() + part(decimal(m.timestamp as nat)).len()
            + part(code_text(m.exit_code)).len(),
{
    let a = part(m.task_name@);
    let b = part(m.input_digest@);
    let c = part(decimal(m.timestamp as nat));
    let d = part(code_text(m.exit_code));
    assert(chars =~= a + b + c + d);
    assert(chars.subrange(0, a.len() as int) =~= a);
    let (la, lb, lc, ld) = (a.len() as int, b.len() as int, c.len() as int, d.len() as int);
    assert(chars.subrange(la, la + lb) =~= b);
    assert(chars.subrange(la + lb, la + lb + lc) =~= c);
    assert(chars.subrange(la + lb + lc, la + lb + lc + ld) =~= d);
}

/// A cache hit: the stored metadata, when the `meta` file is present, reads
/// back, and records the current input digest. What `encode_meta` wrote for
/// the current digest is always a hit with the same record.
pub fn lookup(meta: &Option<String>, current_digest: &String) -> (r: Option<CacheMeta>)
    ensures
        r is Some ==> meta is Some && meta->Some_0@ == meta_text(r->Some_0) && r->Some_0.input_digest@
            == current_digest@,
        meta is None ==> r is None,
        forall|m: CacheMeta| meta is Some && meta->Some_0@ == #[trigger] meta_text(m) ==> (m.input_digest@
            == current_digest@ <==> (r is Some && same_meta(r->Some_0, m))),
{
    match meta {
        Some(text) => match parse_meta(text) {
            Some(m) => {
                if m.input_digest == *current_digest {
                    Some(m)
                } else {
                    None
                }
            },
            None => None,
        },
        None => None,
    }
}

/// The first two characters of a key and the rest.
pub open spec fn key_split(key: Seq<char>) -> (Seq<char>, Seq<char>) {
    let k = if key.len() < 2 { key.len() as int } else { 2 };
    (key.subrange(0, k), key.subrange(k, key.len() as int))
}

/// The directory of the entry for `key`: `<root>/<key[0:2]>/<key[2:]>`.
pub fn entry_dir(root: &String, key: &String) -> (r: String)
    ensures
        r@ == joined_path(joined_path(root@, key_split(key@).0), key_split(key@).1),
{
    let len = key.as_str().unicode_len();
    let k: usize = if len < 2 { len } else { 2 };
    let head = String::from_str(key.as_str().substring_char(0, k));
    let tail = String::from_str(key.as_str().substring_char(k, len));
    let first = join_path(root, &head);
    join_path(&first, &tail)
}

/// An entry older than `max_age` seconds at time `now`.
pub open spec fn expired(timestamp: u64, now: u64, max_age: u64) -> bool {
    now > timestamp && now - timestamp > max_age
}

/// The total size of the entries that are kept.
pub open spec fn kept_size(entries: Seq<(u64, u64)>, evict: Seq<bool>) -> nat
    decreases entries.len(),
{
    if entries.len() == 0 || evict.len() == 0 {
        0
    } else {
        kept_size(entries.drop_last(), evict.drop_last()) + if evict.last() {
            0nat
        } else {
            entries.last().1 as nat
        }
    }
}

proof fn lemma_kept_evict(entries: Seq<(u64, u64)>, evict: Seq<bool>, i: int)
    requires
        entries.len() == evict.len(),
        0 <= i < evict.len(),
        !evict[i],
    ensures
        kept_size(entries, evict.update(i, true)) + entries[i].1 == kept_size(entries, evict),
    decreases entries.len(),
{
    if i == evict.len() - 1 {
        assert(evict.update(i, true).drop_last() =~= evict.drop_last());
    } else {
        lemma_kept_evict(entries.drop_last(), evict.drop_last(), i);
        assert(evict.update(i, true).drop_last() =~= evict.drop_last().update(i, true));
    }
}

/// The number of entries that are kept.
pub open spec fn kept_count(evict: Seq<bool>) -> nat
    decreases evict.len(),
{
    if evict.len() == 0 {
        0
    } else {
        kept_count(evict.drop_last()) + if evict.last() { 0nat } else { 1nat }
    }
}

proof fn lemma_count_evict(evict: Seq<bool>, i: int)
    requires
        0 <= i < evict.len(),
        !evict[i],
    ensures
        kept_count(evict.update(i, true)) + 1 == kept_count(evict),
    decreases evict.len(),
{
    if i == evict.len() - 1 {
        assert(evict.update(i, true).drop_last() =~= evict.drop_last());
    } else {
        lemma_count_evict(evict.drop_last(), i);
        assert(evict.update(i, true).drop_last() =~= evict.drop_last().update(i, true));
    }
}

proof fn lemma_kept_positive(entries: Seq<(u64, u64)>, evict: Seq<bool>)
    requires
        entries.len() == evict.len(),
        kept_size(entries, evict) > 0,
    ensures
        exists|i: int| 0 <= i < evict.len() && !#[trigger] evict[i],
    decreases entries.len(),
{
    if evict.last() {
        lemma_kept_positive(entries.drop_last(), evict.drop_last());
        let i = choose|i: int| 0 <= i < evict.len() - 1 && !#[trigger] evict.drop_last()[i];
        assert(!evict[i]);
    } else {
        assert(!evict[evict.len() - 1]);
    }
}

/// Chooses the cache entries to delete, given each entry's (timestamp, size):
/// every entry older than `max_age`, then, while the rest exceed `max_total`
/// bytes, the oldest of the rest.
pub fn stale_entries(entries: &Vec<(u64, u64)>, now: u64, max_age: u64, max_total: u64) -> (r: Vec<bool>)
    ensures
        r@.len() == entries@.len(),
        forall|i: int| 0 <= i < entries@.len() && expired(entries@[i].0, now, max_age) ==> #[trigger] r@[i],
        kept_size(entries@, r@) <= max_total,
        forall|i: int, k: int|
            0 <= i < entries@.len() && 0 <= k < entries@.len() && #[trigger] r@[i] && !expired(entries@[i].0, now, max_age)
                && !#[trigger] r@[k] ==> entries@[i].0 <= entries@[k].0,
        (exists|i: int| 0 <= i < entries@.len() && #[trigger] r@[i] && !expired(entries@[i].0, now, max_age))
            ==> kept_size(entries@, Seq::new(entries@.len(), |i: int| expired(entries@[i].0, now, max_age))) > max_total,
        (exists|i: int| 0 <= i < entries@.len() && #[trigger] r@[i] && !expired(entries@[i].0, now, max_age))
            ==> exists|i: int|
            0 <= i < entries@.len() && #[trigger] r@[i] && !expired(entries@[i].0, now, max_age) && kept_size(
                entries@,
                r@,
            ) + entries@[i].1 > max_total && forall|q: int|
                0 <= q < entries@.len() && #[trigger] r@[q] && !expired(entries@[q].0, now, max_age) ==> entries@[q].0
                    <= entries@[i].0,
{
    let ghost es = entries@;
    let ghost base = Seq::new(es.len(), |i: int| expired(es[i].0, now, max_age));
    let mut evict: Vec<bool> = Vec::new();
    let mut i: usize = 0;
    while i < entries.len()
        invariant
            i <= es.len(),
            es == entries@,
            base == Seq::new(es.len(), |q: int| expired(es[q].0, now, max_age)),
            evict@ == base.subrange(0, i as int),
        decreases entries.len() - i,
    {
        let (ts, _) = entries[i];
        evict.push(now > ts && now - ts > max_age);
        assert(evict@ =~= base.subrange(0, i + 1));
        i = i + 1;
    }
    assert(evict@ =~= base);
    let mut total: u128 = 0;
    let mut k: usize = 0;
    while k < entries.len()
        invariant
            k <= es.len(),
            es == entries@,
            base == Seq::new(es.len(), |q: int| expired(es[q].0, now, max_age)),
            evict@ == base,
            total == kept_size(es.subrange(0, k as int), base.subrange(0, k as int)),
            total <= k * 18446744073709551615,
        decreases entries.len() - k,
    {
        assert(es.subrange(0, k + 1).drop_last() =~= es.subrange(0, k as int));
        assert(base.subrange(0, k + 1).drop_last() =~= base.subrange(0, k as int));
        if !evict[k] {
            total = total + entries[k].1 as u128;
        }
        k = k + 1;
    }
    assert(es.subrange(0, es.len() as int) =~= es);
    assert(base.subrange(0, es.len() as int) =~= base);
    let ghost over = total > max_total as u128;
    let ghost mut last: int = -1;
    while total > max_total as u128
        invariant
            es == entries@,
            base == Seq::new(es.len(), |q: int| expired(es[q].0, now, max_age)),
            evict@.len() == es.len(),
            total == kept_size(es, evict@),
            forall|q: int| 0 <= q < es.len() && base[q] ==> #[trigger] evict@[q],
            forall|q: int, m: int|
                0 <= q < es.len() && 0 <= m < es.len() && #[trigger] evict@[q] && !base[q] && !#[trigger] evict@[m]
                    ==> es[q].0 <= es[m].0,
            over == (kept_size(es, base) > max_total),
            !over ==> evict@ == base,
            last >= -1,
            last == -1 ==> evict@ == base,
            last >= 0 ==> (0 <= last < es.len() && evict@[last] && !base[last] && total + es[last].1 > max_total
                && forall|q: int| 0 <= q < es.len() && #[trigger] evict@[q] && !base[q] ==> es[q].0 <= es[last].0),
        decreases kept_count(evict@),
    {
        proof {
            lemma_kept_positive(es, evict@);
        }
        let mut j: usize = 0;
        while j < evict.len() && evict[j]
            invariant
                j <= evict@.len(),
                forall|q: int| 0 <= q < j ==> evict@[q],
            decreases evict.len() - j,
        {
            j = j + 1;
        }
        let mut m: usize = j + 1;
        while m < evict.len()
            invariant
                j < evict@.len(),
                j < m,
                !evict@[j as int],
                evict@.len() == es.len(),
                es == entries@,
                forall|q: int| 0 <= q < m && !evict@[q] ==> es[j as int].0 <= #[trigger] es[q].0,
            decreases evict.len() - m,
        {
            if !evict[m] && entries[m].0 < entries[j].0 {
                j = m;
            }
            m = m + 1;
        }
        proof {
            lemma_kept_evict(es, evict@, j as int);
            lemma_count_evict(evict@, j as int);
        }
        let ghost before = evict@;
        let ghost total_before = total;
        evict.set(j, true);
        total = total - entries[j].1 as u128;
        proof {
            last = j as int;
            assert forall|q: int| 0 <= q < es.len() && #[trigger] evict@[q] && !base[q] implies es[q].0 <= es[j as int].0 by {
                if q != j {
                    assert(before[q] && !before[j as int]);
                }
            }
            assert forall|q: int, m2: int|
                0 <= q < es.len() && 0 <= m2 < es.len() && #[trigger] evict@[q] && !base[q] && !#[trigger] evict@[m2]
                implies es[q].0 <= es[m2].0 by {
                if q != j {
                    assert(before[q] && !before[m2]);
                }
            }
        }
    }
    proof {
        if exists|i: int| 0 <= i < es.len() && #[trigger] evict@[i] && !base[i] {
            let i = choose|i: int| 0 <= i < es.len() && #[trigger] evict@[i] && !base[i];
            assert(evict@[i] != base[i]);
            assert(last >= 0);
        }
    }
    evict
}

} // verus!
