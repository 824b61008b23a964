//! Small text parsers and combinators. A parser takes the input and, when it
//! matches, returns what it read together with the rest of the input.
use vstd::prelude::*;

verus! {

/// Whether `c` is an ASCII decimal digit.
pub open spec fn is_digit(c: char) -> bool {
    '0' <= c && c <= '9'
}

/// How many ASCII digits `s` starts with.
pub open spec fn leading_digits(s: Seq<char>) -> nat
    decreases s.len(),
{
    if s.len() > 0 && is_digit(s[0]) {
        1 + leading_digits(s.drop_first())
    } else {
        0
    }
}

/// The number that the decimal digits `s` write.
pub open spec fn digits_value(s: Seq<char>) -> nat
    decreases s.len(),
{
    if s.len() == 0 {
        0
    } else {
        (digits_value(s.drop_last()) * 10 + (s.last() as int - '0' as int)) as nat
    }
}

/// What [`take_uint`] reads from `s`: the number its leading digits write,
/// and what follows them. An empty `s` reads as 0. Nothing is read when a
/// non-empty `s` does not start with a digit, or when the number does not
/// fit in a `u64`.
pub open spec fn uint_spec(s: Seq<char>) -> Option<(u64, Seq<char>)> {
    let n = leading_digits(s);
    if s.len() == 0 {
        Some((0, s))
    } else if n == 0 || digits_value(s.take(n as int)) > u64::MAX {
        None
    } else {
        Some((digits_value(s.take(n as int)) as u64, s.skip(n as int)))
    }
}

/// A parse result with the rest of the input seen as characters.
pub open spec fn seen<T>(o: Option<(T, &str)>) -> Option<(T, Seq<char>)> {
    match o {
        Some((v, rest)) => Some((v, rest@)),
        None => None,
    }
}

/// `leading_digits` counts the digits before the first non-digit.
proof fn lemma_leading_digits(s: Seq<char>, i: int)
    requires
        0 <= i <= s.len(),
        forall|j: int| 0 <= j < i ==> is_digit(#[trigger] s[j]),
        i == s.len() || !is_digit(s[i]),
    ensures
        leading_digits(s) == i,
    decreases i,
{
    if i > 0 {
        let t = s.drop_first();
        assert forall|j: int| 0 <= j < i - 1 implies is_digit(#[trigger] t[j]) by {
            assert(t[j] == s[j + 1]);
        }
        if i < s.len() {
            assert(t[i - 1] == s[i]);
        }
        lemma_leading_digits(t, i - 1);
    }
}

/// The first `leading_digits(s)` characters of `s` are digits, and the one
/// after them, if any, is not.
proof fn lemma_leading_digits_props(s: Seq<char>)
    ensures
        leading_digits(s) <= s.len(),
        forall|j: int| 0 <= j < leading_digits(s) ==> is_digit(#[trigger] s[j]),
        leading_digits(s) < s.len() ==> !is_digit(s[leading_digits(s) as int]),
    decreases s.len(),
{
    if s.len() > 0 && is_digit(s[0]) {
        let t = s.drop_first();
        lemma_leading_digits_props(t);
        assert forall|j: int| 0 <= j < leading_digits(s) implies is_digit(#[trigger] s[j]) by {
            if j > 0 {
                assert(s[j] == t[j - 1]);
            }
        }
        if leading_digits(s) < s.len() {
            assert(s[leading_digits(s) as int] == t[leading_digits(t) as int]);
        }
    }
}

/// Reading one more digit never makes the number smaller.
proof fn lemma_digits_grow(s: Seq<char>, k: int, n: int)
    requires
        0 <= k <= n <= s.len(),
        forall|j: int| 0 <= j < n ==> is_digit(#[trigger] s[j]),
    ensures
        digits_value(s.take(k)) <= digits_value(s.take(n)),
    decreases n - k,
{
    if k < n {
        lemma_digits_grow(s, k + 1, n);
        assert(s.take(k + 1).drop_last() == s.take(k));
        assert(s.take(k + 1).last() == s[k]);
    }
}

/// Reads an unsigned decimal number. An empty input reads as 0. Fails when
/// a non-empty input does not start with a digit, or when the number does
/// not fit in a `u64`.
pub fn take_uint<'a>() -> (r: impl Fn(&'a str) -> Option<(u64, &'a str)>)
    ensures
        forall|i: &'a str| #[trigger] r.requires((i,)),
        forall|i: &'a str, o: Option<(u64, &'a str)>| #[trigger] r.ensures((i,), o) ==> seen(o) == uint_spec(i@),
{
    move |input: &'a str| -> (o: Option<(u64, &'a str)>)
        ensures
            seen(o) == uint_spec(input@),
    {
        let len = input.unicode_len();
        let mut res: u64 = 0;
        let mut i: usize = 0;
        while i < len
            invariant
                len == input@.len(),
                0 <= i <= len,
                forall|j: int| 0 <= j < i ==> is_digit(#[trigger] input@[j]),
                res == digits_value(input@.take(i as int)),
            ensures
                0 <= i <= len,
                forall|j: int| 0 <= j < i ==> is_digit(#[trigger] input@[j]),
                res == digits_value(input@.take(i as int)),
                i == len || !is_digit(input@[i as int]),
            decreases len - i,
        {
            let c = input.get_char(i);
            if !('0' <= c && c <= '9') {
                break;
            }
            let d = (c as u32 - '0' as u32) as u64;
            proof {
                assert(input@.take(i + 1).drop_last() == input@.take(i as int));
                assert(input@.take(i + 1).last() == c);
            }
            if res > (u64::MAX - d) / 10 {
                proof {
                    assert(digits_value(input@.take(i + 1)) > u64::MAX);
                    lemma_leading_digits_props(input@);
                    let n = leading_digits(input@) as int;
                    if n < i + 1 {
                        assert(is_digit(input@[n]));
                    }
                    lemma_digits_grow(input@, i + 1, n);
                }
                return None;
            }
            res = res * 10 + d;
            i = i + 1;
        }
        proof {
            lemma_leading_digits(input@, i as int);
        }
        if i == 0 && len > 0 {
            return None;
        }
        proof {
            if len == 0 {
                assert(input@.take(0) =~= Seq::<char>::empty());
                assert(input@.skip(0) =~= input@);
            }
        }
        let rest = input.substring_char(i, len);
        proof {
            assert(rest@ =~= input@.skip(i as int));
        }
        Some((res, rest))
    }
}

/// Reads `expected` from the start of the input, and returns it.
pub fn take_str<'a, 'e>(expected: &'e str) -> (r: impl Fn(&'a str) -> Option<(&'e str, &'a str)> + 'e)
    ensures
        forall|i: &'a str| #[trigger] r.requires((i,)),
        forall|i: &'a str, o: Option<(&'e str, &'a str)>| #[trigger] r.ensures((i,), o) ==> match o {
            Some((v, rest)) => v == expected && expected@.is_prefix_of(i@) && rest@ == i@.skip(expected@.len() as int),
            None => !expected@.is_prefix_of(i@),
        },
{
    move |input: &'a str| -> (o: Option<(&'e str, &'a str)>)
        ensures
            match o {
                Some((v, rest)) => v == expected && expected@.is_prefix_of(input@) && rest@ == input@.skip(expected@.len() as int),
                None => !expected@.is_prefix_of(input@),
            },
    {
        let n = expected.unicode_len();
        let len = input.unicode_len();
        if n > len {
            return None;
        }
        let mut i: usize = 0;
        while i < n
            invariant
                n == expected@.len(),
                len == input@.len(),
                n <= len,
                0 <= i <= n,
                forall|j: int| 0 <= j < i ==> #[trigger] expected@[j] == input@[j],
            decreases n - i,
        {
            if expected.get_char(i) != input.get_char(i) {
                return None;
            }
            i = i + 1;
        }
        let rest = input.substring_char(n, len);
        proof {
            assert(rest@ =~= input@.skip(n as int));
        }
        Some((expected, rest))
    }
}

/// Reads the character `expected`.
pub fn take_char<'a>(expected: char) -> (r: impl Fn(&'a str) -> Option<(char, &'a str)>)
    ensures
        forall|i: &'a str| #[trigger] r.requires((i,)),
        forall|i: &'a str, o: Option<(char, &'a str)>| #[trigger] r.ensures((i,), o) ==> seen(o) == (if i@.len() > 0 && i@[0] == expected {
            Some((expected, i@.drop_first()))
        } else {
            None
        }),
{
    move |input: &'a str| -> (o: Option<(char, &'a str)>)
        ensures
            seen(o) == (if input@.len() > 0 && input@[0] == expected {
                Some((expected, input@.drop_first()))
            } else {
                None
            }),
    {
        let len = input.unicode_len();
        if len == 0 {
            return None;
        }
        let c = input.get_char(0);
        if c == expected {
            let rest = input.substring_char(1, len);
            assert(rest@ =~= input@.drop_first());
            Some((c, rest))
        } else {
            None
        }
    }
}

/// Reads one character that `expected` holds, and returns all of
/// `expected`.
pub fn take_any<'a, 'e>(expected: &'e str) -> (r: impl Fn(&'a str) -> Option<(&'e str, &'a str)> + 'e)
    ensures
        forall|i: &'a str| #[trigger] r.requires((i,)),
        forall|i: &'a str, o: Option<(&'e str, &'a str)>| #[trigger] r.ensures((i,), o) ==> match o {
            Some((v, rest)) => v == expected && i@.len() > 0 && expected@.contains(i@[0]) && rest@ == i@.drop_first(),
            None => !(i@.len() > 0 && expected@.contains(i@[0])),
        },
{
    move |input: &'a str| -> (o: Option<(&'e str, &'a str)>)
        ensures
            match o {
                Some((v, rest)) => v == expected && input@.len() > 0 && expected@.contains(input@[0]) && rest@ == input@.drop_first(),
                None => !(input@.len() > 0 && expected@.contains(input@[0])),
            },
    {
        let len = input.unicode_len();
        if len == 0 {
            return None;
        }
        let c = input.get_char(0);
        let n = expected.unicode_len();
        let mut k: usize = 0;
        while k < n
            invariant
                n == expected@.len(),
                len == input@.len(),
                len > 0,
                0 <= k <= n,
                c == input@[0],
                forall|j: int| 0 <= j < k ==> #[trigger] expected@[j] != c,
            decreases n - k,
        {
            if expected.get_char(k) == c {
                let rest = input.substring_char(1, len);
                assert(rest@ =~= input@.drop_first());
                return Some((expected, rest));
            }
            k = k + 1;
        }
        None
    }
}

/// Reads a line break character (`\n` or `\r`).
pub fn take_newline<'a>() -> (r: impl Fn(&'a str) -> Option<(&'a str, &'a str)>)
    ensures
        forall|i: &'a str| #[trigger] r.requires((i,)),
        forall|i: &'a str, o: Option<(&'a str, &'a str)>| #[trigger] r.ensures((i,), o) ==> match o {
            Some((v, rest)) => v@ == seq!['\n', '\r'] && i@.len() > 0 && (i@[0] == '\n' || i@[0] == '\r') && rest@ == i@.drop_first(),
            None => !(i@.len() > 0 && (i@[0] == '\n' || i@[0] == '\r')),
        },
{
    let set = "\n\r";
    proof {
        reveal_strlit("\n\r");
        assert(set@ =~= seq!['\n', '\r']);
        assert forall|c: char| #[trigger] set@.contains(c) <==> seq!['\n', '\r'].contains(c) by {}
    }
    take_any(set)
}

/// Reads one whitespace character (space, tab, `\r` or `\n`).
pub fn take_whitespace<'a>() -> (r: impl Fn(&'a str) -> Option<(&'a str, &'a str)>)
    ensures
        forall|i: &'a str| #[trigger] r.requires((i,)),
        forall|i: &'a str, o: Option<(&'a str, &'a str)>| #[trigger] r.ensures((i,), o) ==> match o {
            Some((v, rest)) => v@ == seq![' ', '\t', '\r', '\n'] && i@.len() > 0 && v@.contains(i@[0]) && rest@ == i@.drop_first(),
            None => !(i@.len() > 0 && seq![' ', '\t', '\r', '\n'].contains(i@[0])),
        },
{
    let set = " \t\r\n";
    proof {
        reveal_strlit(" \t\r\n");
        assert(set@ =~= seq![' ', '\t', '\r', '\n']);
        assert forall|c: char| #[trigger] set@.contains(c) <==> seq![' ', '\t', '\r', '\n'].contains(c) by {}
    }
    take_any(set)
}

/// Reads one space or tab.
pub fn take_spacetab<'a>() -> (r: impl Fn(&'a str) -> Option<(&'a str, &'a str)>)
    ensures
        forall|i: &'a str| #[trigger] r.requires((i,)),
        forall|i: &'a str, o: Option<(&'a str, &'a str)>| #[trigger] r.ensures((i,), o) ==> match o {
            Some((v, rest)) => v@ == seq![' ', '\t'] && i@.len() > 0 && (i@[0] == ' ' || i@[0] == '\t') && rest@ == i@.drop_first(),
            None => !(i@.len() > 0 && (i@[0] == ' ' || i@[0] == '\t')),
        },
{
    let set = " \t";
    proof {
        reveal_strlit(" \t");
        assert(set@ =~= seq![' ', '\t']);
        assert forall|c: char| #[trigger] set@.contains(c) <==> seq![' ', '\t'].contains(c) by {}
    }
    take_any(set)
}

/// Succeeds, reading nothing, exactly at the end of the input.
pub fn take_eol<'a>() -> (r: impl Fn(&'a str) -> Option<((), &'a str)>)
    ensures
        forall|i: &'a str| #[trigger] r.requires((i,)),
        forall|i: &'a str, o: Option<((), &'a str)>| #[trigger] r.ensures((i,), o) ==> seen(o) == (if i@.len() == 0 {
            Some(((), i@))
        } else {
            None
        }),
{
    move |input: &'a str| -> (o: Option<((), &'a str)>)
        ensures
            seen(o) == (if input@.len() == 0 {
                Some(((), input@))
            } else {
                None
            }),
    {
        if input.is_empty() {
            return Some(((), input));
        }
        None
    }
}

/// What [`take_int`] reads from `s`: an optional sign, `-` or `+`, then an
/// unsigned number that fits in an `i64`.
pub open spec fn int_spec(s: Seq<char>) -> Option<(i64, Seq<char>)> {
    let neg = s.len() > 0 && s[0] == '-';
    let body = if s.len() > 0 && (s[0] == '-' || s[0] == '+') {
        s.drop_first()
    } else {
        s
    };
    match uint_spec(body) {
        Some((v, rest)) => if v <= i64::MAX {
            Some(((if neg { -(v as int) } else { v as int }) as i64, rest))
        } else {
            None
        },
        None => None,
    }
}

/// Reads a decimal number with an optional sign; what follows the sign is
/// read as by [`take_uint`], so a sign at the end of the input reads as 0.
/// Fails when the number does not fit in an `i64`.
pub fn take_int<'a>() -> (r: impl Fn(&'a str) -> Option<(i64, &'a str)>)
    ensures
        forall|i: &'a str| #[trigger] r.requires((i,)),
        forall|i: &'a str, o: Option<(i64, &'a str)>| #[trigger] r.ensures((i,), o) ==> seen(o) == int_spec(i@),
{
    move |input: &'a str| -> (o: Option<(i64, &'a str)>)
        ensures
            seen(o) == int_spec(input@),
    {
        let minus = "-";
        let plus = "+";
        proof {
            reveal_strlit("-");
            reveal_strlit("+");
        }
        let (negative, rest) = if let Some((_, rest)) = take_str(minus)(input) {
            proof {
                assert(input@.len() > 0 && input@[0] == '-') by {
                    assert(minus@.is_prefix_of(input@));
                    assert(minus@[0] == '-');
                }
                assert(rest@ =~= input@.drop_first());
            }
            (true, rest)
        } else if let Some((_, rest)) = take_str(plus)(input) {
            proof {
                assert(input@.len() > 0 && input@[0] == '+') by {
                    assert(plus@.is_prefix_of(input@));
                    assert(plus@[0] == '+');
                }
                assert(rest@ =~= input@.drop_first());
            }
            (false, rest)
        } else {
            proof {
                if input@.len() > 0 && input@[0] == '-' {
                    assert(minus@.is_prefix_of(input@));
                }
                if input@.len() > 0 && input@[0] == '+' {
                    assert(plus@.is_prefix_of(input@));
                }
            }
            (false, input)
        };
        let (res, rest) = match take_uint()(rest) {
            Some(p) => p,
            None => return None,
        };
        if res > i64::MAX as u64 {
            return None;
        }
        let v = res as i64;
        if negative {
            Some((-v, rest))
        } else {
            Some((v, rest))
        }
    }
}

/// What [`take_any_func`] gives on `s`: the first character of `s` that
/// `pred` accepts, with `s` less its first character.
pub open spec fn find_result<F: Fn(&char) -> bool>(pred: F, s: Seq<char>, o: Option<(char, Seq<char>)>) -> bool {
    match o {
        Some((c, rest)) => exists|k: int| 0 <= k < s.len() && s[k] == c && pred.ensures((&s[k],), true)
            && (forall|j: int| 0 <= j < k ==> pred.ensures((&s[j],), false)) && rest == s.drop_first(),
        None => forall|j: int| 0 <= j < s.len() ==> pred.ensures((&s[j],), false),
    }
}

/// Reads one character: the first character of the input for which
/// `expected` holds, wherever it stands; the rest of the input is what
/// follows the first character.
pub fn take_any_func<'a, F>(expected: F) -> (r: impl Fn(&'a str) -> Option<(char, &'a str)>)
    where
        F: Fn(&char) -> bool,
    requires
        forall|c: &char| #[trigger] expected.requires((c,)),
    ensures
        forall|i: &'a str| #[trigger] r.requires((i,)),
        forall|i: &'a str, o: Option<(char, &'a str)>| #[trigger] r.ensures((i,), o) ==> find_result(expected, i@, seen(o)),
{
    move |input: &'a str| -> (o: Option<(char, &'a str)>)
        ensures
            find_result(expected, input@, seen(o)),
    {
        let len = input.unicode_len();
        let mut k: usize = 0;
        while k < len
            invariant
                len == input@.len(),
                0 <= k <= len,
                forall|c: &char| #[trigger] expected.requires((c,)),
                forall|j: int| 0 <= j < k ==> expected.ensures((&input@[j],), false),
            decreases len - k,
        {
            let c = input.get_char(k);
            if expected(&c) {
                let rest = input.substring_char(1, len);
                assert(rest@ =~= input@.drop_first());
                let o = Some((c, rest));
                assert(find_result(expected, input@, seen(o))) by {
                    assert(input@[k as int] == (seen(o)->0).0);
                }
                return o;
            }
            k = k + 1;
        }
        None
    }
}

/// `p` succeeds on `i`, reading `v` and leaving `rest`.
pub open spec fn reads<'a, T, P: Fn(&'a str) -> Option<(T, &'a str)>>(p: P, i: &'a str, v: T, rest: &'a str) -> bool {
    p.ensures((i,), Some((v, rest)))
}

/// `p` fails on `i`.
pub open spec fn fails<'a, T, P: Fn(&'a str) -> Option<(T, &'a str)>>(p: P, i: &'a str) -> bool {
    p.ensures((i,), None)
}

/// `p` may be called on any input.
pub open spec fn total<'a, T, P: Fn(&'a str) -> Option<(T, &'a str)>>(p: P) -> bool {
    forall|i: &'a str| #[trigger] p.requires((i,))
}

/// `p` reads at least one character whenever it succeeds.
pub open spec fn consumes<'a, T, P: Fn(&'a str) -> Option<(T, &'a str)>>(p: P) -> bool {
    forall|i: &'a str, v: T, rest: &'a str| #[trigger] reads(p, i, v, rest) ==> rest@.len() < i@.len()
}

/// `p` never lengthens the input.
pub open spec fn shortens<'a, T, P: Fn(&'a str) -> Option<(T, &'a str)>>(p: P) -> bool {
    forall|i: &'a str, v: T, rest: &'a str| #[trigger] reads(p, i, v, rest) ==> rest@.len() <= i@.len()
}

/// `first` reads `l` from `i`, leaving `m`, from which `second` reads `x`,
/// leaving `rest`.
pub open spec fn reads_then<'a, F, S, P: Fn(&'a str) -> Option<(F, &'a str)>, Q: Fn(&'a str) -> Option<(S, &'a str)>>(
    first: P,
    second: Q,
    i: &'a str,
    l: F,
    m: &'a str,
    x: S,
    rest: &'a str,
) -> bool {
    reads(first, i, l, m) && reads(second, m, x, rest)
}

/// `first` then `second` fail on `i`: `first` fails, or `second` fails
/// where `first` stopped.
pub open spec fn fails_then<'a, F, S, P: Fn(&'a str) -> Option<(F, &'a str)>, Q: Fn(&'a str) -> Option<(S, &'a str)>>(
    first: P,
    second: Q,
    i: &'a str,
) -> bool {
    fails(first, i) || exists|a: F, m: &'a str| #[trigger] reads(first, i, a, m) && fails(second, m)
}

/// What running `first` then `second` on `i` gives, as a pair of both
/// results.
pub open spec fn pair_result<'a, F, S, P: Fn(&'a str) -> Option<(F, &'a str)>, Q: Fn(&'a str) -> Option<(S, &'a str)>>(
    first: P,
    second: Q,
    i: &'a str,
    o: Option<((F, S), &'a str)>,
) -> bool {
    match o {
        Some((v, rest)) => exists|m: &'a str| #[trigger] reads_then(first, second, i, v.0, m, v.1, rest),
        None => fails_then(first, second, i),
    }
}

/// What running `first` then `second` on `i` gives, keeping the result of
/// `first`.
pub open spec fn first_result<'a, F, S, P: Fn(&'a str) -> Option<(F, &'a str)>, Q: Fn(&'a str) -> Option<(S, &'a str)>>(
    first: P,
    second: Q,
    i: &'a str,
    o: Option<(F, &'a str)>,
) -> bool {
    match o {
        Some((l, rest)) => exists|m: &'a str, x: S| #[trigger] reads_then(first, second, i, l, m, x, rest),
        None => fails_then(first, second, i),
    }
}

/// What running `first` then `second` on `i` gives, keeping the result of
/// `second`.
pub open spec fn second_result<'a, F, S, P: Fn(&'a str) -> Option<(F, &'a str)>, Q: Fn(&'a str) -> Option<(S, &'a str)>>(
    first: P,
    second: Q,
    i: &'a str,
    o: Option<(S, &'a str)>,
) -> bool {
    match o {
        Some((x, rest)) => exists|l: F, m: &'a str| #[trigger] reads_then(first, second, i, l, m, x, rest),
        None => fails_then(first, second, i),
    }
}

/// Runs `first` then `second`, and keeps what `first` read.
pub fn take_first<'a, F, S>(
    first: impl Fn(&'a str) -> Option<(F, &'a str)>,
    second: impl Fn(&'a str) -> Option<(S, &'a str)>,
) -> (r: impl Fn(&'a str) -> Option<(F, &'a str)>)
    requires
        total(first),
        total(second),
    ensures
        total(r),
        forall|i: &'a str, o: Option<(F, &'a str)>| #[trigger] r.ensures((i,), o) ==> first_result(first, second, i, o),
{
    move |input: &'a str| -> (o: Option<(F, &'a str)>)
        ensures
            first_result(first, second, input, o),
    {
        match first(input) {
            Some((l, m)) => match second(m) {
                Some((x, rest)) => {
                    assert(reads_then(first, second, input, l, m, x, rest));
                    let o = Some((l, rest));
                    assert(reads_then(first, second, input, (o->0).0, m, x, (o->0).1));
                    o
                },
                None => {
                    assert(reads(first, input, l, m) && fails(second, m));
                    None
                },
            },
            None => None,
        }
    }
}

/// Runs `first` then `second`, and keeps what `second` read.
pub fn take_second<'a, F, S>(
    first: impl Fn(&'a str) -> Option<(F, &'a str)>,
    second: impl Fn(&'a str) -> Option<(S, &'a str)>,
) -> (r: impl Fn(&'a str) -> Option<(S, &'a str)>)
    requires
        total(first),
        total(second),
    ensures
        total(r),
        forall|i: &'a str, o: Option<(S, &'a str)>| #[trigger] r.ensures((i,), o) ==> second_result(first, second, i, o),
{
    move |input: &'a str| -> (o: Option<(S, &'a str)>)
        ensures
            second_result(first, second, input, o),
    {
        match first(input) {
            Some((l, m)) => match second(m) {
                Some((x, rest)) => {
                    assert(reads_then(first, second, input, l, m, x, rest));
                    assert(second_result(first, second, input, Some((x, rest))));
                    Some((x, rest))
                },
                None => {
                    assert(reads(first, input, l, m) && fails(second, m));
                    None
                },
            },
            None => None,
        }
    }
}

/// Runs `first` then `second`, and keeps both results.
pub fn take_tuple<'a, F, S>(
    first: impl Fn(&'a str) -> Option<(F, &'a str)>,
    second: impl Fn(&'a str) -> Option<(S, &'a str)>,
) -> (r: impl Fn(&'a str) -> Option<((F, S), &'a str)>)
    requires
        total(first),
        total(second),
    ensures
        total(r),
        forall|i: &'a str, o: Option<((F, S), &'a str)>| #[trigger] r.ensures((i,), o) ==> pair_result(first, second, i, o),
{
    move |input: &'a str| -> (o: Option<((F, S), &'a str)>)
        ensures
            pair_result(first, second, input, o),
    {
        match first(input) {
            Some((l, m)) => match second(m) {
                Some((x, rest)) => {
                    assert(reads_then(first, second, input, l, m, x, rest));
                    let o = Some(((l, x), rest));
                    assert(reads_then(first, second, input, ((o->0).0).0, m, ((o->0).0).1, (o->0).1));
                    o
                },
                None => {
                    assert(reads(first, input, l, m) && fails(second, m));
                    None
                },
            },
            None => None,
        }
    }
}

/// Runs `first`; when it fails, runs `second` on the same input.
pub fn take_or<'a, F>(
    first: impl Fn(&'a str) -> Option<(F, &'a str)>,
    second: impl Fn(&'a str) -> Option<(F, &'a str)>,
) -> (r: impl Fn(&'a str) -> Option<(F, &'a str)>)
    requires
        total(first),
        total(second),
    ensures
        total(r),
        forall|i: &'a str, o: Option<(F, &'a str)>| #[trigger] r.ensures((i,), o) ==> match o {
            Some((f, rest)) => reads(first, i, f, rest) || (fails(first, i) && reads(second, i, f, rest)),
            None => fails(first, i) && fails(second, i),
        },
{
    move |input: &'a str| -> (o: Option<(F, &'a str)>)
        ensures
            match o {
                Some((f, rest)) => reads(first, input, f, rest) || (fails(first, input) && reads(second, input, f, rest)),
                None => fails(first, input) && fails(second, input),
            },
    {
        if let Some((f, rest)) = first(input) {
            return Some((f, rest));
        }
        second(input)
    }
}

/// What running `first` on `i` and turning its result with `f` gives.
pub open spec fn map_result<'a, A, B, P: Fn(&'a str) -> Option<(A, &'a str)>, G: Fn(A) -> B>(
    first: P,
    f: G,
    i: &'a str,
    o: Option<(B, &'a str)>,
) -> bool {
    match o {
        Some((b, rest)) => exists|a: A| #[trigger] reads(first, i, a, rest) && f.ensures((a,), b),
        None => fails(first, i),
    }
}

/// What running `parser` on `i` and ignoring its failure gives.
pub open spec fn catch_result<'a, T, P: Fn(&'a str) -> Option<(T, &'a str)>>(
    parser: P,
    i: &'a str,
    o: Option<((), &'a str)>,
) -> bool {
    match o {
        Some((_, rest)) => (exists|v: T| #[trigger] reads(parser, i, v, rest)) || (fails(parser, i) && rest == i),
        None => false,
    }
}

/// Runs `first` and turns what it read with `f`.
pub fn map<'a, A, B>(
    first: impl Fn(&'a str) -> Option<(A, &'a str)>,
    f: impl Fn(A) -> B,
) -> (r: impl Fn(&'a str) -> Option<(B, &'a str)>)
    requires
        total(first),
        forall|a: A| #[trigger] f.requires((a,)),
    ensures
        total(r),
        forall|i: &'a str, o: Option<(B, &'a str)>| #[trigger] r.ensures((i,), o) ==> map_result(first, f, i, o),
{
    move |input: &'a str| -> (o: Option<(B, &'a str)>)
        ensures
            map_result(first, f, input, o),
    {
        if let Some((a, rest)) = first(input) {
            let ghost a0 = a;
            let b = f(a);
            assert(reads(first, input, a0, rest) && f.ensures((a0,), b));
            let o = Some((b, rest));
            assert(reads(first, input, a0, (o->0).1) && f.ensures((a0,), (o->0).0));
            return o;
        }
        None
    }
}

/// Runs `parser` if it matches; succeeds either way, reading nothing when
/// it does not match.
pub fn catch<'a, P>(
    parser: impl Fn(&'a str) -> Option<(P, &'a str)>,
) -> (r: impl Fn(&'a str) -> Option<((), &'a str)>)
    requires
        total(parser),
    ensures
        total(r),
        forall|i: &'a str, o: Option<((), &'a str)>| #[trigger] r.ensures((i,), o) ==> catch_result(parser, i, o),
{
    move |input: &'a str| -> (o: Option<((), &'a str)>)
        ensures
            catch_result(parser, input, o),
    {
        if let Some((v, rest)) = parser(input) {
            assert(reads(parser, input, v, rest));
            let o = Some(((), rest));
            assert(reads(parser, input, v, (o->0).1));
            return o;
        }
        Some(((), input))
    }
}

/// What running `p`, `q` and `t` one after the other on `i` gives, keeping
/// the three results.
pub open spec fn triple_result<'a, A, B, C, P: Fn(&'a str) -> Option<(A, &'a str)>, Q: Fn(&'a str) -> Option<(B, &'a str)>, T: Fn(&'a str) -> Option<(C, &'a str)>>(
    p: P,
    q: Q,
    t: T,
    i: &'a str,
    o: Option<((A, B, C), &'a str)>,
) -> bool {
    match o {
        Some((v, rest)) => exists|m1: &'a str, m2: &'a str|
            #[trigger] reads(p, i, v.0, m1) && #[trigger] reads(q, m1, v.1, m2) && reads(t, m2, v.2, rest),
        None => fails(p, i) || (exists|a: A, m1: &'a str| #[trigger] reads(p, i, a, m1) && fails(q, m1))
            || (exists|a: A, m1: &'a str, b: B, m2: &'a str| #[trigger] reads(p, i, a, m1) && #[trigger] reads(q, m1, b, m2) && fails(t, m2)),
    }
}

/// Runs three parsers one after the other, and keeps the three results.
pub fn take_tuple3<'a, A, B, C>(
    first: impl Fn(&'a str) -> Option<(A, &'a str)>,
    second: impl Fn(&'a str) -> Option<(B, &'a str)>,
    third: impl Fn(&'a str) -> Option<(C, &'a str)>,
) -> (r: impl Fn(&'a str) -> Option<((A, B, C), &'a str)>)
    requires
        total(first),
        total(second),
        total(third),
    ensures
        total(r),
        forall|i: &'a str, o: Option<((A, B, C), &'a str)>| #[trigger] r.ensures((i,), o) ==> triple_result(first, second, third, i, o),
{
    move |input: &'a str| -> (o: Option<((A, B, C), &'a str)>)
        ensures
            triple_result(first, second, third, input, o),
    {
        match first(input) {
            Some((a, m1)) => match second(m1) {
                Some((b, m2)) => match third(m2) {
                    Some((c, rest)) => {
                        let o = Some(((a, b, c), rest));
                        assert(reads(first, input, ((o->0).0).0, m1) && reads(second, m1, ((o->0).0).1, m2) && reads(third, m2, ((o->0).0).2, (o->0).1));
                        o
                    },
                    None => {
                        assert(reads(first, input, a, m1) && reads(second, m1, b, m2) && fails(third, m2));
                        None
                    },
                },
                None => {
                    assert(reads(first, input, a, m1) && fails(second, m1));
                    None
                },
            },
            None => None,
        }
    }
}

/// What running four parsers one after the other on `i` gives, keeping the
/// four results.
pub open spec fn quad_result<'a, A, B, C, D, P: Fn(&'a str) -> Option<(A, &'a str)>, Q: Fn(&'a str) -> Option<(B, &'a str)>, T: Fn(&'a str) -> Option<(C, &'a str)>, U: Fn(&'a str) -> Option<(D, &'a str)>>(
    p: P,
    q: Q,
    t: T,
    u: U,
    i: &'a str,
    o: Option<((A, B, C, D), &'a str)>,
) -> bool {
    match o {
        Some((v, rest)) => exists|m1: &'a str, m2: &'a str, m3: &'a str|
            #[trigger] reads(p, i, v.0, m1) && #[trigger] reads(q, m1, v.1, m2) && #[trigger] reads(t, m2, v.2, m3) && reads(u, m3, v.3, rest),
        None => fails(p, i) || (exists|a: A, m1: &'a str| #[trigger] reads(p, i, a, m1) && fails(q, m1))
            || (exists|a: A, m1: &'a str, b: B, m2: &'a str| #[trigger] reads(p, i, a, m1) && #[trigger] reads(q, m1, b, m2) && fails(t, m2))
            || (exists|a: A, m1: &'a str, b: B, m2: &'a str, c: C, m3: &'a str|
                #[trigger] reads(p, i, a, m1) && #[trigger] reads(q, m1, b, m2) && #[trigger] reads(t, m2, c, m3) && fails(u, m3)),
    }
}

/// Runs four parsers one after the other, and keeps the four results.
pub fn take_tuple4<'a, A, B, C, D>(
    first: impl Fn(&'a str) -> Option<(A, &'a str)>,
    second: impl Fn(&'a str) -> Option<(B, &'a str)>,
    third: impl Fn(&'a str) -> Option<(C, &'a str)>,
    fourth: impl Fn(&'a str) -> Option<(D, &'a str)>,
) -> (r: impl Fn(&'a str) -> Option<((A, B, C, D), &'a str)>)
    requires
        total(first),
        total(second),
        total(third),
        total(fourth),
    ensures
        total(r),
        forall|i: &'a str, o: Option<((A, B, C, D), &'a str)>| #[trigger] r.ensures((i,), o) ==> quad_result(first, second, third, fourth, i, o),
{
    move |input: &'a str| -> (o: Option<((A, B, C, D), &'a str)>)
        ensures
            quad_result(first, second, third, fourth, input, o),
    {
        match first(input) {
            Some((a, m1)) => match second(m1) {
                Some((b, m2)) => match third(m2) {
                    Some((c, m3)) => match fourth(m3) {
                        Some((d, rest)) => {
                            let o = Some(((a, b, c, d), rest));
                            assert(reads(first, input, ((o->0).0).0, m1) && reads(second, m1, ((o->0).0).1, m2)
                                && reads(third, m2, ((o->0).0).2, m3) && reads(fourth, m3, ((o->0).0).3, (o->0).1));
                            o
                        },
                        None => {
                            assert(reads(first, input, a, m1) && reads(second, m1, b, m2) && reads(third, m2, c, m3) && fails(fourth, m3));
                            None
                        },
                    },
                    None => {
                        assert(reads(first, input, a, m1) && reads(second, m1, b, m2) && fails(third, m2));
                        None
                    },
                },
                None => {
                    assert(reads(first, input, a, m1) && fails(second, m1));
                    None
                },
            },
            None => None,
        }
    }
}

/// Runs `first`; when it fails `second`; when that fails too `third`; each
/// on the same input.
pub fn take_or3<'a, F>(
    first: impl Fn(&'a str) -> Option<(F, &'a str)>,
    second: impl Fn(&'a str) -> Option<(F, &'a str)>,
    third: impl Fn(&'a str) -> Option<(F, &'a str)>,
) -> (r: impl Fn(&'a str) -> Option<(F, &'a str)>)
    requires
        total(first),
        total(second),
        total(third),
    ensures
        total(r),
        forall|i: &'a str, o: Option<(F, &'a str)>| #[trigger] r.ensures((i,), o) ==> match o {
            Some((f, rest)) => reads(first, i, f, rest) || (fails(first, i) && reads(second, i, f, rest))
                || (fails(first, i) && fails(second, i) && reads(third, i, f, rest)),
            None => fails(first, i) && fails(second, i) && fails(third, i),
        },
{
    move |input: &'a str| -> (o: Option<(F, &'a str)>)
        ensures
            match o {
                Some((f, rest)) => reads(first, input, f, rest) || (fails(first, input) && reads(second, input, f, rest))
                    || (fails(first, input) && fails(second, input) && reads(third, input, f, rest)),
                None => fails(first, input) && fails(second, input) && fails(third, input),
            },
    {
        if let Some((f, rest)) = first(input) {
            return Some((f, rest));
        }
        if let Some((f, rest)) = second(input) {
            return Some((f, rest));
        }
        third(input)
    }
}

/// Runs `first`, `second`, `third` and `fourth` in turn on the same input,
/// until one succeeds.
pub fn take_or4<'a, F>(
    first: impl Fn(&'a str) -> Option<(F, &'a str)>,
    second: impl Fn(&'a str) -> Option<(F, &'a str)>,
    third: impl Fn(&'a str) -> Option<(F, &'a str)>,
    fourth: impl Fn(&'a str) -> Option<(F, &'a str)>,
) -> (r: impl Fn(&'a str) -> Option<(F, &'a str)>)
    requires
        total(first),
        total(second),
        total(third),
        total(fourth),
    ensures
        total(r),
        forall|i: &'a str, o: Option<(F, &'a str)>| #[trigger] r.ensures((i,), o) ==> match o {
            Some((f, rest)) => reads(first, i, f, rest) || (fails(first, i) && reads(second, i, f, rest))
                || (fails(first, i) && fails(second, i) && reads(third, i, f, rest))
                || (fails(first, i) && fails(second, i) && fails(third, i) && reads(fourth, i, f, rest)),
            None => fails(first, i) && fails(second, i) && fails(third, i) && fails(fourth, i),
        },
{
    move |input: &'a str| -> (o: Option<(F, &'a str)>)
        ensures
            match o {
                Some((f, rest)) => reads(first, input, f, rest) || (fails(first, input) && reads(second, input, f, rest))
                    || (fails(first, input) && fails(second, input) && reads(third, input, f, rest))
                    || (fails(first, input) && fails(second, input) && fails(third, input) && reads(fourth, input, f, rest)),
                None => fails(first, input) && fails(second, input) && fails(third, input) && fails(fourth, input),
            },
    {
        if let Some((f, rest)) = first(input) {
            return Some((f, rest));
        }
        if let Some((f, rest)) = second(input) {
            return Some((f, rest));
        }
        if let Some((f, rest)) = third(input) {
            return Some((f, rest));
        }
        fourth(input)
    }
}

/// `p` read `items` one after the other, going through the inputs `ins`:
/// item `j` from `ins[j]`, leaving `ins[j + 1]`.
pub open spec fn read_chain<'a, T, P: Fn(&'a str) -> Option<(T, &'a str)>>(p: P, ins: Seq<&'a str>, items: Seq<T>) -> bool {
    &&& ins.len() == items.len() + 1
    &&& forall|j: int| 0 <= j < items.len() ==> #[trigger] reads(p, ins[j], items[j], ins[j + 1])
}

/// What running `p` on `i` as many times as it succeeds gives.
pub open spec fn many_result<'a, T, P: Fn(&'a str) -> Option<(T, &'a str)>>(p: P, i: &'a str, o: Option<(Vec<T>, &'a str)>) -> bool {
    match o {
        Some((items, rest)) => exists|ins: Seq<&'a str>| #[trigger] read_chain(p, ins, items@) && ins[0] == i && ins.last() == rest && fails(p, rest),
        None => false,
    }
}

/// Runs `first` on the input for as long as it succeeds, and collects what
/// it read, possibly nothing.
pub fn take_many0<'a, F>(
    first: impl Fn(&'a str) -> Option<(F, &'a str)>,
) -> (r: impl Fn(&'a str) -> Option<(Vec<F>, &'a str)>)
    requires
        total(first),
        consumes(first),
    ensures
        total(r),
        forall|i: &'a str, o: Option<(Vec<F>, &'a str)>| #[trigger] r.ensures((i,), o) ==> many_result(first, i, o),
{
    move |input: &'a str| -> (o: Option<(Vec<F>, &'a str)>)
        ensures
            many_result(first, input, o),
    {
        let mut res: Vec<F> = Vec::new();
        let mut cur = input;
        let ghost mut ins: Seq<&'a str> = seq![input];
        loop
            invariant
                total(first),
                consumes(first),
                read_chain(first, ins, res@),
                ins[0] == input,
                ins.last() == cur,
            ensures
                read_chain(first, ins, res@),
                ins[0] == input,
                ins.last() == cur,
                fails(first, cur),
            decreases cur@.len(),
        {
            match first(cur) {
                Some((item, rest)) => {
                    assert(reads(first, cur, item, rest));
                    let ghost old_ins = ins;
                    let ghost old_res = res@;
                    res.push(item);
                    proof {
                        ins = ins.push(rest);
                        assert forall|j: int| 0 <= j < res@.len() implies #[trigger] reads(first, ins[j], res@[j], ins[j + 1]) by {
                            if j < old_res.len() {
                                assert(reads(first, old_ins[j], old_res[j], old_ins[j + 1]));
                            }
                        }
                    }
                    cur = rest;
                },
                None => break,
            }
        }
        let o = Some((res, cur));
        assert(read_chain(first, ins, ((o->0).0)@) && ins[0] == input && ins.last() == (o->0).1 && fails(first, (o->0).1));
        o
    }
}

/// Like [`take_many0`], but fails unless `first` succeeds at least once.
pub fn take_many1<'a, F>(
    first: impl Fn(&'a str) -> Option<(F, &'a str)>,
) -> (r: impl Fn(&'a str) -> Option<(Vec<F>, &'a str)>)
    requires
        total(first),
        consumes(first),
    ensures
        total(r),
        forall|i: &'a str, o: Option<(Vec<F>, &'a str)>| #[trigger] r.ensures((i,), o) ==> match o {
            Some((items, _)) => items@.len() > 0 && many_result(first, i, o),
            None => fails(first, i),
        },
{
    move |input: &'a str| -> (o: Option<(Vec<F>, &'a str)>)
        ensures
            match o {
                Some((items, _)) => items@.len() > 0 && many_result(first, input, o),
                None => fails(first, input),
            },
    {
        let mut res: Vec<F> = Vec::new();
        let mut cur = input;
        let ghost mut ins: Seq<&'a str> = seq![input];
        loop
            invariant
                total(first),
                consumes(first),
                read_chain(first, ins, res@),
                ins[0] == input,
                ins.last() == cur,
            ensures
                read_chain(first, ins, res@),
                ins[0] == input,
                ins.last() == cur,
                fails(first, cur),
            decreases cur@.len(),
        {
            match first(cur) {
                Some((item, rest)) => {
                    assert(reads(first, cur, item, rest));
                    let ghost old_ins = ins;
                    let ghost old_res = res@;
                    res.push(item);
                    proof {
                        ins = ins.push(rest);
                        assert forall|j: int| 0 <= j < res@.len() implies #[trigger] reads(first, ins[j], res@[j], ins[j + 1]) by {
                            if j < old_res.len() {
                                assert(reads(first, old_ins[j], old_res[j], old_ins[j + 1]));
                            }
                        }
                    }
                    cur = rest;
                },
                None => break,
            }
        }
        if res.len() == 0 {
            return None;
        }
        let o = Some((res, cur));
        assert(read_chain(first, ins, ((o->0).0)@) && ins[0] == input && ins.last() == (o->0).1 && fails(first, (o->0).1));
        o
    }
}

/// Items read by `item` from `ins[j]` to `outs[j]`, and separators read by
/// `sep` from `outs[j]` to `ins[j + 1]` for each `j < n_seps`.
pub open spec fn separated_chain<'a, T, S, P: Fn(&'a str) -> Option<(T, &'a str)>, Q: Fn(&'a str) -> Option<(S, &'a str)>>(
    item: P,
    sep: Q,
    ins: Seq<&'a str>,
    outs: Seq<&'a str>,
    seps: Seq<S>,
    items: Seq<T>,
    n_seps: int,
) -> bool {
    &&& ins.len() == items.len() + 1
    &&& outs.len() == items.len()
    &&& seps.len() == items.len()
    &&& forall|j: int| 0 <= j < items.len() ==> #[trigger] reads(item, ins[j], items[j], outs[j])
    &&& forall|j: int| 0 <= j < n_seps ==> #[trigger] reads(sep, outs[j], seps[j], ins[j + 1])
}

/// The items ended with `rest`: where an item failed (at once or after a
/// separator), or where a separator failed after the last item.
pub open spec fn separated_end<'a, T, S, P: Fn(&'a str) -> Option<(T, &'a str)>, Q: Fn(&'a str) -> Option<(S, &'a str)>>(
    item: P,
    sep: Q,
    ins: Seq<&'a str>,
    outs: Seq<&'a str>,
    seps: Seq<S>,
    items: Seq<T>,
    rest: &'a str,
) -> bool {
    let n = items.len() as int;
    ||| (separated_chain(item, sep, ins, outs, seps, items, n) && fails(item, ins[n]) && rest == ins[n])
    ||| (n > 0 && separated_chain(item, sep, ins, outs, seps, items, n - 1) && fails(sep, outs[n - 1]) && rest == outs[n - 1])
}

/// What [`take_separator`] gives on `i`: items separated by separators,
/// stopping where an item fails (after the last separator, or at once) or
/// where a separator fails (after the last item).
pub open spec fn separated_result<'a, T, S, P: Fn(&'a str) -> Option<(T, &'a str)>, Q: Fn(&'a str) -> Option<(S, &'a str)>>(
    item: P,
    sep: Q,
    i: &'a str,
    o: Option<(Vec<T>, &'a str)>,
) -> bool {
    match o {
        Some((items, rest)) => exists|ins: Seq<&'a str>, outs: Seq<&'a str>, seps: Seq<S>|
            ins[0] == i && #[trigger] separated_end(item, sep, ins, outs, seps, items@, rest),
        None => false,
    }
}

/// Reads items separated by separators: an item, then as long as a
/// separator follows, the separator and the next item. Succeeds always,
/// possibly with no item; a separator after the last item is read too. One
/// of the two parsers must read something whenever it succeeds, and the
/// other must never lengthen the input.
pub fn take_separator<'a, F, S>(
    item: impl Fn(&'a str) -> Option<(F, &'a str)>,
    separator: impl Fn(&'a str) -> Option<(S, &'a str)>,
) -> (r: impl Fn(&'a str) -> Option<(Vec<F>, &'a str)>)
    requires
        total(item),
        total(separator),
        (consumes(item) && shortens(separator)) || (shortens(item) && consumes(separator)),
    ensures
        total(r),
        forall|i: &'a str, o: Option<(Vec<F>, &'a str)>| #[trigger] r.ensures((i,), o) ==> separated_result(item, separator, i, o),
{
    move |input: &'a str| -> (o: Option<(Vec<F>, &'a str)>)
        ensures
            separated_result(item, separator, input, o),
    {
        let mut res: Vec<F> = Vec::new();
        let mut cur = input;
        let ghost mut ins: Seq<&'a str> = seq![input];
        let ghost mut outs: Seq<&'a str> = seq![];
        let ghost mut seps: Seq<S> = seq![];
        loop
            invariant_except_break
                separated_chain(item, separator, ins, outs, seps, res@, res@.len() as int),
                ins.last() == cur,
            invariant
                total(item),
                total(separator),
                (consumes(item) && shortens(separator)) || (shortens(item) && consumes(separator)),
                ins[0] == input,
            ensures
                ins[0] == input,
                separated_end(item, separator, ins, outs, seps, res@, cur),
            decreases cur@.len(),
        {
            match item(cur) {
                Some((x, after)) => {
                    assert(reads(item, cur, x, after));
                    let ghost n0 = res@.len() as int;
                    let ghost old_res = res@;
                    let ghost old_ins = ins;
                    let ghost old_outs = outs;
                    let ghost old_seps = seps;
                    res.push(x);
                    proof {
                        outs = outs.push(after);
                        assert forall|j: int| 0 <= j < res@.len() implies #[trigger] reads(item, ins[j], res@[j], outs[j]) by {
                            if j < n0 {
                                assert(reads(item, old_ins[j], old_res[j], old_outs[j]));
                            }
                        }
                    }
                    match separator(after) {
                        Some((sv, next)) => {
                            assert(reads(separator, after, sv, next));
                            proof {
                                ins = ins.push(next);
                                seps = seps.push(sv);
                                assert forall|j: int| 0 <= j < res@.len() implies #[trigger] reads(item, ins[j], res@[j], outs[j]) by {
                                    if j < n0 {
                                        assert(reads(item, old_ins[j], old_res[j], old_outs[j]));
                                    }
                                }
                                assert forall|j: int| 0 <= j < res@.len() implies #[trigger] reads(separator, outs[j], seps[j], ins[j + 1]) by {
                                    if j < n0 {
                                        assert(reads(separator, old_outs[j], old_seps[j], old_ins[j + 1]));
                                    }
                                }
                            }
                            cur = next;
                        },
                        None => {
                            proof {
                                let ghost pad: S = vstd::pervasive::arbitrary();
                                seps = seps.push(pad);
                                ins = ins.push(after);
                                assert forall|j: int| 0 <= j < res@.len() implies #[trigger] reads(item, ins[j], res@[j], outs[j]) by {
                                    if j < n0 {
                                        assert(reads(item, old_ins[j], old_res[j], old_outs[j]));
                                    }
                                }
                                assert forall|j: int| 0 <= j < res@.len() - 1 implies #[trigger] reads(separator, outs[j], seps[j], ins[j + 1]) by {
                                    assert(reads(separator, old_outs[j], old_seps[j], old_ins[j + 1]));
                                }
                                assert(separated_chain(item, separator, ins, outs, seps, res@, res@.len() - 1));
                            }
                            cur = after;
                            break;
                        },
                    }
                },
                None => break,
            }
        }
        let o = Some((res, cur));
        assert(separated_end(item, separator, ins, outs, seps, ((o->0).0)@, (o->0).1));
        o
    }
}

/// Whether `c` is a space or a tab.
pub open spec fn is_blank(c: char) -> bool {
    c == ' ' || c == '\t'
}

/// How many spaces and tabs `s` starts with.
pub open spec fn leading_blanks(s: Seq<char>) -> nat
    decreases s.len(),
{
    if s.len() > 0 && is_blank(s[0]) {
        1 + leading_blanks(s.drop_first())
    } else {
        0
    }
}

/// `leading_blanks` counts the blanks before the first other character.
proof fn lemma_leading_blanks(s: Seq<char>, i: int)
    requires
        0 <= i <= s.len(),
        forall|j: int| 0 <= j < i ==> is_blank(#[trigger] s[j]),
        i == s.len() || !is_blank(s[i]),
    ensures
        leading_blanks(s) == i,
    decreases i,
{
    if i > 0 {
        let t = s.drop_first();
        assert forall|j: int| 0 <= j < i - 1 implies is_blank(#[trigger] t[j]) by {
            assert(t[j] == s[j + 1]);
        }
        if i < s.len() {
            assert(t[i - 1] == s[i]);
        }
        lemma_leading_blanks(t, i - 1);
    }
}

/// The number of spaces and tabs that `s` starts with.
fn count_blanks(s: &str) -> (r: usize)
    ensures
        r == leading_blanks(s@),
        r <= s@.len(),
{
    let len = s.unicode_len();
    let mut k: usize = 0;
    while k < len
        invariant
            len == s@.len(),
            0 <= k <= len,
            forall|j: int| 0 <= j < k ==> is_blank(#[trigger] s@[j]),
        ensures
            0 <= k <= len,
            forall|j: int| 0 <= j < k ==> is_blank(#[trigger] s@[j]),
            k == len || !is_blank(s@[k as int]),
        decreases len - k,
    {
        let c = s.get_char(k);
        if !(c == ' ' || c == '\t') {
            break;
        }
        k = k + 1;
    }
    proof {
        lemma_leading_blanks(s@, k as int);
    }
    k
}

/// What [`with_space`] gives on `i`.
pub open spec fn spaced_result<'a, T, P: Fn(&'a str) -> Option<(T, &'a str)>>(p: P, i: &'a str, o: Option<(T, &'a str)>) -> bool {
    let k = leading_blanks(i@) as int;
    match o {
        Some((v, rest)) => k < i@.len() && exists|mid: &'a str, after: &'a str|
            mid@ == i@.skip(k) && #[trigger] reads(p, mid, v, after) && rest@ == after@.skip(leading_blanks(after@) as int),
        None => k == i@.len() || exists|mid: &'a str| mid@ == i@.skip(k) && #[trigger] fails(p, mid),
    }
}

/// Runs `parser` after the spaces and tabs that start the input, and skips
/// the spaces and tabs after what it read. Fails on an input of spaces and
/// tabs only.
pub fn with_space<'a, P>(
    parser: impl Fn(&'a str) -> Option<(P, &'a str)> + 'a,
) -> (r: impl Fn(&'a str) -> Option<(P, &'a str)>)
    requires
        total(parser),
    ensures
        total(r),
        forall|i: &'a str, o: Option<(P, &'a str)>| #[trigger] r.ensures((i,), o) ==> spaced_result(parser, i, o),
{
    move |input: &'a str| -> (o: Option<(P, &'a str)>)
        ensures
            spaced_result(parser, input, o),
    {
        let len = input.unicode_len();
        let pos = count_blanks(input);
        if pos == len {
            return None;
        }
        let mid = input.substring_char(pos, len);
        assert(mid@ =~= input@.skip(pos as int));
        match parser(mid) {
            Some((res, after)) => {
                let n = after.unicode_len();
                let k = count_blanks(after);
                let rest = after.substring_char(k, n);
                assert(rest@ =~= after@.skip(k as int));
                let o = Some((res, rest));
                assert(reads(parser, mid, (o->0).0, after) && (o->0).1@ == after@.skip(leading_blanks(after@) as int));
                o
            },
            None => {
                assert(fails(parser, mid));
                None
            },
        }
    }
}

/// One of two alternatives.
pub enum Either<A, B> {
    Left(A),
    Right(B),
}

/// What [`take_either`] gives on `i`.
pub open spec fn either_result<'a, A, B, P: Fn(&'a str) -> Option<(A, &'a str)>, Q: Fn(&'a str) -> Option<(B, &'a str)>>(
    first: P,
    second: Q,
    i: &'a str,
    o: Option<(Either<A, B>, &'a str)>,
) -> bool {
    match o {
        Some((Either::Left(a), rest)) => reads(first, i, a, rest),
        Some((Either::Right(b), rest)) => fails(first, i) && reads(second, i, b, rest),
        None => fails(first, i) && fails(second, i),
    }
}

/// Runs `first`, or when it fails `second`, on the same input, and tells
/// which one matched.
pub fn take_either<'a, A, B>(
    first: impl Fn(&'a str) -> Option<(A, &'a str)>,
    second: impl Fn(&'a str) -> Option<(B, &'a str)>,
) -> (r: impl Fn(&'a str) -> Option<(Either<A, B>, &'a str)>)
    requires
        total(first),
        total(second),
    ensures
        total(r),
        forall|i: &'a str, o: Option<(Either<A, B>, &'a str)>| #[trigger] r.ensures((i,), o) ==> either_result(first, second, i, o),
{
    move |input: &'a str| -> (o: Option<(Either<A, B>, &'a str)>)
        ensures
            either_result(first, second, input, o),
    {
        if let Some((a, rest)) = first(input) {
            return Some((Either::Left(a), rest));
        }
        if let Some((b, rest)) = second(input) {
            return Some((Either::Right(b), rest));
        }
        None
    }
}

} // verus!
