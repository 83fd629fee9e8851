//! Reading one integer from a line of input: surrounding Unicode whitespace is
//! dropped, then an optional sign and decimal digits are read.
use vstd::prelude::*;

verus! {

/// Unicode White_Space: U+0009 to U+000D, U+0020, U+0085, U+00A0, U+1680,
/// U+2000 to U+200A, U+2028, U+2029, U+202F, U+205F and U+3000.
pub open spec fn is_space(c: char) -> bool {
    let u = c as u32;
    (9 <= u && u <= 13) || u == 0x20 || u == 0x85 || u == 0xA0 || u == 0x1680
        || (0x2000 <= u && u <= 0x200A) || u == 0x2028 || u == 0x2029 || u == 0x202F
        || u == 0x205F || u == 0x3000
}

pub open spec fn is_digit(c: char) -> bool {
    48 <= c as u32 && c as u32 <= 57
}

pub open spec fn digit_value(c: char) -> nat {
    if is_digit(c) { (c as u32 - 48) as nat } else { 0 }
}

/// `s` without its leading whitespace.
pub open spec fn trim_front(s: Seq<char>) -> Seq<char>
    decreases s.len(),
{
    if s.len() > 0 && is_space(s[0]) { trim_front(s.drop_first()) } else { s }
}

/// `s` without its trailing whitespace.
pub open spec fn trim_back(s: Seq<char>) -> Seq<char>
    decreases s.len(),
{
    if s.len() > 0 && is_space(s.last()) { trim_back(s.drop_last()) } else { s }
}

/// `s` without surrounding whitespace.
pub open spec fn trim(s: Seq<char>) -> Seq<char> {
    trim_back(trim_front(s))
}

pub open spec fn all_digits(s: Seq<char>) -> bool {
    forall|i: int| 0 <= i < s.len() ==> is_digit(#[trigger] s[i])
}

/// Value of a string of decimal digits.
pub open spec fn digits_value(s: Seq<char>) -> nat
    decreases s.len(),
{
    if s.len() == 0 { 0 } else { digits_value(s.drop_last()) * 10 + digit_value(s.last()) }
}

/// `t` without a leading sign.
pub open spec fn unsigned_part(t: Seq<char>) -> Seq<char> {
    if t.len() > 0 && (t[0] == '-' || t[0] == '+') { t.drop_first() } else { t }
}

/// The signed 64-bit integer that `t` spells: an optional `+` or `-`, then
/// one or more decimal digits, in range.
pub open spec fn parse_int(t: Seq<char>) -> Option<i64> {
    let neg = t.len() > 0 && t[0] == '-';
    let body = unsigned_part(t);
    let v: int = if neg { -digits_value(body) } else { digits_value(body) as int };
    if body.len() == 0 || !all_digits(body) || v < i64::MIN || v > i64::MAX {
        None
    } else {
        Some(v as i64)
    }
}

/// The value that an input line gives, if any.
pub open spec fn line_value(line: Seq<char>) -> Option<i64> {
    parse_int(trim(line))
}

proof fn lemma_digits_prefix(s: Seq<char>, k: int)
    requires
        0 <= k <= s.len(),
    ensures
        digits_value(s.take(k)) <= digits_value(s),
    decreases s.len(),
{
    if k < s.len() {
        assert(s.drop_last().take(k) =~= s.take(k));
        lemma_digits_prefix(s.drop_last(), k);
    } else {
        assert(s.take(k) =~= s);
    }
}

proof fn lemma_trim_front_step(s: Seq<char>, i: int)
    requires
        0 <= i < s.len(),
        is_space(s[i]),
    ensures
        trim_front(s.subrange(i, s.len() as int)) == trim_front(s.subrange(i + 1, s.len() as int)),
{
    assert(s.subrange(i, s.len() as int).drop_first() =~= s.subrange(i + 1, s.len() as int));
}

proof fn lemma_trim_back_step(s: Seq<char>, j: int)
    requires
        0 < j <= s.len(),
        is_space(s[j - 1]),
    ensures
        trim_back(s.subrange(0, j)) == trim_back(s.subrange(0, j - 1)),
{
    assert(s.subrange(0, j).drop_last() =~= s.subrange(0, j - 1));
}

/// The text of `line` without surrounding whitespace.
pub fn trim_line(line: &str) -> (r: String)
    ensures
        r@ == trim(line@),
{
    let n = line.unicode_len();
    let ghost s = line@;
    let mut i: usize = 0;
    assert(s.subrange(0, n as int) =~= s);
    while i < n && is_space_char(line.get_char(i))
        invariant
            i <= n,
            n == s.len(),
            s == line@,
            trim_front(s) == trim_front(s.subrange(i as int, n as int)),
        decreases n - i,
    {
        proof {
            lemma_trim_front_step(s, i as int);
        }
        i += 1;
    }
    let ghost front = s.subrange(i as int, n as int);
    assert(trim_front(front) == front);
    let mut j: usize = n;
    assert(front.subrange(0, (j - i) as int) =~= front);
    while j > i && is_space_char(line.get_char(j - 1))
        invariant
            i <= j <= n,
            n == s.len(),
            s == line@,
            front == s.subrange(i as int, n as int),
            trim_back(front) == trim_back(front.subrange(0, (j - i) as int)),
        decreases j,
    {
        proof {
            lemma_trim_back_step(front, (j - i) as int);
        }
        j -= 1;
    }
    let ghost rest = front.subrange(0, (j - i) as int);
    assert(trim_back(rest) == rest);
    assert(rest =~= s.subrange(i as int, j as int));
    String::from_str(line.substring_char(i, j))
}

fn is_space_char(c: char) -> (r: bool)
    ensures
        r == is_space(c),
{
    let u = c as u32;
    (9 <= u && u <= 13) || u == 0x20 || u == 0x85 || u == 0xA0 || u == 0x1680
        || (0x2000 <= u && u <= 0x200A) || u == 0x2028 || u == 0x2029 || u == 0x202F
        || u == 0x205F || u == 0x3000
}

/// Reads a signed 64-bit integer from `t`, which holds no surrounding whitespace.
pub fn parse_int_text(t: &str) -> (r: Option<i64>)
    ensures
        r == parse_int(t@),
{
    let n = t.unicode_len();
    let ghost s = t@;
    let neg = n > 0 && t.get_char(0) == '-';
    let start: usize = if n > 0 && (t.get_char(0) == '-' || t.get_char(0) == '+') { 1 } else { 0 };
    let ghost body = unsigned_part(s);
    assert(body =~= s.subrange(start as int, n as int));
    if start == n {
        return None;
    }
    let limit: u64 = 9223372036854775808;
    let mut acc: u64 = 0;
    let mut k: usize = start;
    while k < n
        invariant
            start <= k <= n,
            n == s.len(),
            s == t@,
            body == s.subrange(start as int, n as int),
            body == unsigned_part(s),
            neg == (s.len() > 0 && s[0] == '-'),
            limit == 9223372036854775808u64,
            acc as nat == digits_value(body.take(k - start)),
            acc <= limit,
            all_digits(body.take(k - start)),
        decreases n - k,
    {
        let c = t.get_char(k);
        let ghost pre = body.take(k - start);
        let ghost next = body.take(k - start + 1);
        assert(next.drop_last() =~= pre);
        if !(48 <= c as u32 && c as u32 <= 57) {
            assert(body[k - start] == c);
            assert(!is_digit(body[k - start]));
            assert(!all_digits(body));
            return None;
        }
        let d = (c as u32 - 48) as u64;
        assert(next.last() == c);
        assert(digits_value(next) == digits_value(pre) * 10 + d);
        if acc > 922337203685477580 {
            proof {
                assert(acc * 10 >= 9223372036854775810) by (nonlinear_arith)
                    requires
                        acc > 922337203685477580,
                ;
                assert(digits_value(next) >= 9223372036854775810);
                if all_digits(body) {
                    lemma_digits_prefix(body, k - start + 1);
                    assert(digits_value(body) > limit);
                }
            }
            return None;
        }
        acc = acc * 10 + d;
        if acc > limit {
            proof {
                if all_digits(body) {
                    lemma_digits_prefix(body, k - start + 1);
                    assert(digits_value(body) > limit);
                }
            }
            return None;
        }
        k += 1;
        assert(all_digits(body.take(k - start)));
    }
    assert(body.take(n - start) =~= body);
    if neg {
        if acc == limit {
            Some(i64::MIN)
        } else {
            Some(-(acc as i64))
        }
    } else if acc > 9223372036854775807 {
        None
    } else {
        Some(acc as i64)
    }
}

} // verus!
