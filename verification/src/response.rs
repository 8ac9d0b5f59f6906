//! The response model: an opaque content string, its supported encodings,
//! and the fixed wire framing around it.

use vstd::prelude::*;

verus! {

/// An outgoing payload: a single content string.  Status line, content type
/// and framing are fixed by the protocol layer ([`ok_response`],
/// [`not_found_response`]) and are no part of the value.
#[derive(Debug, Clone)]
pub struct Response {
    pub content: String,
}

impl Response {
    /// A response whose content is `data`, unchanged.
    pub fn raw_text(data: &str) -> (r: Response)
        ensures
            r.content@ == data@,
    {
        Response { content: String::from_str(data) }
    }

    /// A response whose content is the structured-data (JSON) encoding of
    /// the integer `v`: its canonical decimal text.
    pub fn json_int(v: i64) -> (r: Response)
        ensures
            r.content@ == json_int_text(v as int),
    {
        if v >= 0 {
            Response { content: dec_u64(v as u64) }
        } else {
            let m: u64 = ((-(v + 1)) as u64) + 1;
            proof {
                assert(m as int == -(v as int));
            }
            let digits = dec_u64(m);
            let content = String::from_str("-").concat(digits.as_str());
            proof {
                reveal_strlit("-");
                assert("-"@ =~= seq!['-']);
            }
            Response { content }
        }
    }
}

/// The decimal digit character for `d`.
pub open spec fn digit_char(d: int) -> char {
    if d == 0 {
        '0'
    } else if d == 1 {
        '1'
    } else if d == 2 {
        '2'
    } else if d == 3 {
        '3'
    } else if d == 4 {
        '4'
    } else if d == 5 {
        '5'
    } else if d == 6 {
        '6'
    } else if d == 7 {
        '7'
    } else if d == 8 {
        '8'
    } else {
        '9'
    }
}

/// The value of a decimal digit character; 10 for any other character.
pub open spec fn digit_val(c: char) -> int {
    if c == '0' {
        0
    } else if c == '1' {
        1
    } else if c == '2' {
        2
    } else if c == '3' {
        3
    } else if c == '4' {
        4
    } else if c == '5' {
        5
    } else if c == '6' {
        6
    } else if c == '7' {
        7
    } else if c == '8' {
        8
    } else if c == '9' {
        9
    } else {
        10
    }
}

/// Whether `c` is a decimal digit.
pub open spec fn is_digit_char(c: char) -> bool {
    digit_val(c) < 10
}

/// The decimal digits of `n`, most significant first, without leading
/// zeros (except for `n == 0` itself).
pub open spec fn dec_digits(n: nat) -> Seq<char>
    decreases n,
{
    if n < 10 {
        seq![digit_char(n as int)]
    } else {
        dec_digits((n / 10) as nat).push(digit_char((n % 10) as int))
    }
}

/// The canonical JSON text of the integer `v`: its decimal digits, with a
/// leading minus sign when `v` is negative.
pub open spec fn json_int_text(v: int) -> Seq<char> {
    if v < 0 {
        seq!['-'] + dec_digits((-v) as nat)
    } else {
        dec_digits(v as nat)
    }
}

/// The number denoted by a sequence of decimal digit characters.
pub open spec fn digits_val(s: Seq<char>) -> int
    decreases s.len(),
{
    if s.len() == 0 {
        0
    } else {
        digits_val(s.drop_last()) * 10 + digit_val(s.last())
    }
}

/// Whether every character of `s` is a decimal digit.
pub open spec fn all_digits(s: Seq<char>) -> bool {
    forall|i: int| 0 <= i < s.len() ==> is_digit_char(s[i])
}

/// The integer denoted by `s`: an optional minus sign followed by at least
/// one decimal digit.  Any other shape denotes nothing.
pub open spec fn int_text_val(s: Seq<char>) -> Option<int> {
    if s.len() >= 2 && s[0] == '-' && all_digits(s.drop_first()) {
        Some(-digits_val(s.drop_first()))
    } else if s.len() >= 1 && all_digits(s) {
        Some(digits_val(s))
    } else {
        None
    }
}

/// What decoding an integer from JSON text yields: the denoted integer, as
/// long as it fits a 64-bit signed integer.
pub open spec fn parse_int_spec(s: Seq<char>) -> Option<int> {
    match int_text_val(s) {
        Some(v) => if i64::MIN <= v <= i64::MAX {
            Some(v)
        } else {
            None
        },
        None => None,
    }
}

/// The one-character string for the digit `d`.
fn digit_str(d: u64) -> (r: &'static str)
    requires
        d < 10,
    ensures
        r@ == seq![digit_char(d as int)],
{
    if d == 0 {
        proof {
            reveal_strlit("0");
            assert("0"@ =~= seq![digit_char(0int)]);
        }
        "0"
    } else if d == 1 {
        proof {
            reveal_strlit("1");
            assert("1"@ =~= seq![digit_char(1int)]);
        }
        "1"
    } else if d == 2 {
        proof {
            reveal_strlit("2");
            assert("2"@ =~= seq![digit_char(2int)]);
        }
        "2"
    } else if d == 3 {
        proof {
            reveal_strlit("3");
            assert("3"@ =~= seq![digit_char(3int)]);
        }
        "3"
    } else if d == 4 {
        proof {
            reveal_strlit("4");
            assert("4"@ =~= seq![digit_char(4int)]);
        }
        "4"
    } else if d == 5 {
        proof {
            reveal_strlit("5");
            assert("5"@ =~= seq![digit_char(5int)]);
        }
        "5"
    } else if d == 6 {
        proof {
            reveal_strlit("6");
            assert("6"@ =~= seq![digit_char(6int)]);
        }
        "6"
    } else if d == 7 {
        proof {
            reveal_strlit("7");
            assert("7"@ =~= seq![digit_char(7int)]);
        }
        "7"
    } else if d == 8 {
        proof {
            reveal_strlit("8");
            assert("8"@ =~= seq![digit_char(8int)]);
        }
        "8"
    } else {
        proof {
            reveal_strlit("9");
            assert("9"@ =~= seq![digit_char(9int)]);
        }
        "9"
    }
}

/// The decimal digits of `m`, as a string.
fn dec_u64(m: u64) -> (r: String)
    ensures
        r@ == dec_digits(m as nat),
    decreases m,
{
    if m < 10 {
        String::from_str(digit_str(m))
    } else {
        let r = dec_u64(m / 10).concat(digit_str(m % 10));
        proof {
            assert(dec_digits((m as nat / 10) as nat).push(digit_char((m as nat % 10) as int))
                =~= dec_digits((m as nat / 10) as nat) + seq![digit_char((m as nat % 10) as int)]);
        }
        r
    }
}

/// The full wire bytes of a successful answer carrying `content`.
pub open spec fn ok_wire(content: Seq<char>) -> Seq<char> {
    "HTTP/1.1 200 OK\r\nContent-Type:text/html;charset=utf-8\r\n\r\n"@ + content + "\r\n\r\n"@
}

/// The full wire bytes of the not-found answer; it carries no body.
pub open spec fn not_found_wire() -> Seq<char> {
    "HTTP/1.1 404 Not Found\r\nContent-Type:text/html;charset=utf-8\r\n\r\n"@
}

/// Frames `content` as the successful wire answer: status line, the fixed
/// content-type header, a blank line, the content, and a terminating blank
/// line.
pub fn ok_response(content: &str) -> (r: String)
    ensures
        r@ == ok_wire(content@),
{
    String::from_str("HTTP/1.1 200 OK\r\nContent-Type:text/html;charset=utf-8\r\n\r\n").concat(
        content,
    ).concat("\r\n\r\n")
}

/// The not-found wire answer: status line and the fixed content-type header,
/// with no body.
pub fn not_found_response() -> (r: String)
    ensures
        r@ == not_found_wire(),
{
    String::from_str("HTTP/1.1 404 Not Found\r\nContent-Type:text/html;charset=utf-8\r\n\r\n")
}

proof fn lemma_digits_val_nonneg(s: Seq<char>)
    ensures
        digits_val(s) >= 0,
    decreases s.len(),
{
    if s.len() > 0 {
        lemma_digits_val_nonneg(s.drop_last());
    }
}

proof fn lemma_digits_val_prefix(s: Seq<char>, k: int)
    requires
        0 <= k <= s.len(),
    ensures
        digits_val(s.subrange(0, k)) <= digits_val(s),
    decreases s.len() - k,
{
    if k == s.len() {
        assert(s.subrange(0, k) =~= s);
    } else {
        assert(s.subrange(0, k + 1).drop_last() =~= s.subrange(0, k));
        assert(s.subrange(0, k + 1).last() == s[k]);
        lemma_digits_val_nonneg(s.subrange(0, k));
        assert(digits_val(s.subrange(0, k)) <= digits_val(s.subrange(0, k + 1)));
        lemma_digits_val_prefix(s, k + 1);
    }
}

proof fn lemma_dec_digits_wf(n: nat)
    ensures
        all_digits(dec_digits(n)),
        dec_digits(n).len() >= 1,
        digits_val(dec_digits(n)) == n,
    decreases n,
{
    if n < 10 {
        assert(is_digit_char(digit_char(n as int)));
        assert(seq![digit_char(n as int)].drop_last() =~= Seq::<char>::empty());
        assert(seq![digit_char(n as int)].last() == digit_char(n as int));
        assert(digits_val(Seq::<char>::empty()) == 0);
        assert(digits_val(seq![digit_char(n as int)]) == digit_val(digit_char(n as int)));
        assert(digit_val(digit_char(n as int)) == n);
    } else {
        lemma_dec_digits_wf((n / 10) as nat);
        let p = dec_digits((n / 10) as nat);
        let c = digit_char((n % 10) as int);
        assert(is_digit_char(c));
        assert(forall|i: int| 0 <= i < p.len() ==> p.push(c)[i] == p[i]);
        assert(p.push(c).last() == c);
        assert(all_digits(p.push(c)));
        assert(p.push(c).drop_last() =~= p);
        vstd::arithmetic::div_mod::lemma_fundamental_div_mod(n as int, 10);
        assert(digits_val(p.push(c)) == (n / 10) * 10 + (n % 10));
    }
}

/// Round trip: decoding the canonical JSON text of any 64-bit integer
/// yields that integer back.
pub proof fn lemma_json_int_round_trip(v: i64)
    ensures
        parse_int_spec(json_int_text(v as int)) == Some(v as int),
{
    if v >= 0 {
        let t = json_int_text(v as int);
        lemma_dec_digits_wf(v as nat);
        assert(is_digit_char(t[0]));
        assert(t[0] != '-');
        assert(int_text_val(t) == Some(digits_val(t)));
    } else {
        let m = (-(v as int)) as nat;
        lemma_dec_digits_wf(m);
        let t = json_int_text(v as int);
        assert(t[0] == '-');
        assert(t.drop_first() =~= dec_digits(m));
        assert(int_text_val(t) == Some(-digits_val(dec_digits(m))));
    }
}

/// Decodes an integer from its JSON text: an optional minus sign and
/// decimal digits denoting a value that fits a 64-bit signed integer.
pub fn parse_json_int(s: &str) -> (r: Option<i64>)
    ensures
        match r {
            Some(x) => parse_int_spec(s@) == Some(x as int),
            None => parse_int_spec(s@) is None,
        },
{
    let n = s.unicode_len();
    if n == 0 {
        return None;
    }
    let neg = s.get_char(0) == '-';
    let start: usize = if neg {
        1
    } else {
        0
    };
    if n == start {
        return None;
    }
    let ghost digits = s@.subrange(start as int, n as int);
    let limit: u128 = if neg {
        9223372036854775808u128
    } else {
        9223372036854775807u128
    };
    let mut acc: u128 = 0;
    let mut i: usize = start;
    proof {
        assert(digits.subrange(0, 0) =~= Seq::<char>::empty());
    }
    while i < n
        invariant
            n == s@.len(),
            start <= i <= n,
            start < n,
            start == if neg {
                1int
            } else {
                0int
            },
            neg == (s@[0] == '-'),
            digits == s@.subrange(start as int, n as int),
            limit == if neg {
                9223372036854775808u128
            } else {
                9223372036854775807u128
            },
            forall|j: int| start <= j < i ==> is_digit_char(s@[j]),
            acc as int == digits_val(s@.subrange(start as int, i as int)),
            acc <= limit,
        decreases n - i,
    {
        let c = s.get_char(i);
        let d: u64 = match digit_of_char(c) {
            Some(d) => d,
            None => {
                proof {
                    assert(!is_digit_char(s@[i as int]));
                    if neg {
                        assert(!all_digits(s@.drop_first())) by {
                            assert(s@.drop_first()[i - 1] == s@[i as int]);
                        }
                    } else {
                        assert(!all_digits(s@)) by {
                            assert(!is_digit_char(s@[i as int]));
                        }
                        assert(s@[0] != '-');
                    }
                }
                return None;
            },
        };
        let next: u128 = acc * 10 + d as u128;
        proof {
            assert(s@.subrange(start as int, i + 1).drop_last() =~= s@.subrange(
                start as int,
                i as int,
            ));
            assert(s@.subrange(start as int, i + 1).last() == s@[i as int]);
            assert(next as int == digits_val(s@.subrange(start as int, i + 1)));
        }
        if next > limit {
            proof {
                let pre = s@.subrange(start as int, i + 1);
                assert(pre =~= digits.subrange(0, i + 1 - start));
                lemma_digits_val_prefix(digits, i + 1 - start);
                assert(digits_val(digits) > limit);
                if neg {
                    assert(s@.drop_first() =~= digits);
                    if all_digits(digits) {
                        assert(int_text_val(s@) == Some(-digits_val(digits)));
                        assert(-digits_val(digits) < i64::MIN);
                    }
                } else {
                    assert(s@.subrange(0, n as int) =~= s@);
                    assert(digits =~= s@);
                    if all_digits(s@) {
                        assert(int_text_val(s@) == Some(digits_val(s@)));
                        assert(digits_val(s@) > i64::MAX);
                    }
                }
            }
            return None;
        }
        acc = next;
        i += 1;
    }
    proof {
        assert(s@.subrange(start as int, n as int) == digits);
        assert(forall|j: int| 0 <= j < digits.len() ==> digits[j] == s@[j + start]);
        assert(all_digits(digits));
        if neg {
            assert(s@.drop_first() =~= digits);
            assert(int_text_val(s@) == Some(-digits_val(digits)));
        } else {
            assert(digits =~= s@);
            assert(int_text_val(s@) == Some(digits_val(s@)));
        }
    }
    if neg {
        if acc == 9223372036854775808u128 {
            Some(i64::MIN)
        } else {
            let t = acc as i64;
            Some(-t)
        }
    } else {
        Some(acc as i64)
    }
}

/// The value of `c` as a decimal digit, if it is one.
fn digit_of_char(c: char) -> (r: Option<u64>)
    ensures
        match r {
            Some(d) => is_digit_char(c) && d < 10 && d as int == digit_val(c),
            None => !is_digit_char(c),
        },
{
    match c {
        '0' => Some(0),
        '1' => Some(1),
        '2' => Some(2),
        '3' => Some(3),
        '4' => Some(4),
        '5' => Some(5),
        '6' => Some(6),
        '7' => Some(7),
        '8' => Some(8),
        '9' => Some(9),
        _ => None,
    }
}

} // verus!
