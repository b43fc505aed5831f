use vstd::prelude::*;

verus! {

/// The characters of `s`, in order.
pub fn chars_of(s: &str) -> (r: Vec<char>)
    ensures
        r@ == s@,
{
    let mut r: Vec<char> = Vec::new();
    for c in it: s.chars()
        invariant
            r@ == it.seq().subrange(0, it.index() as int),
    {
        r.push(c);
    }
    r
}

/// Unicode's White_Space property, the whitespace that trimming removes.
pub open spec fn is_white(c: char) -> bool {
    let u = c as u32;
    ||| 0x09 <= u <= 0x0d
    ||| u == 0x20
    ||| u == 0x85
    ||| u == 0xa0
    ||| u == 0x1680
    ||| 0x2000 <= u <= 0x200a
    ||| u == 0x2028
    ||| u == 0x2029
    ||| u == 0x202f
    ||| u == 0x205f
    ||| u == 0x3000
}

fn white(c: char) -> (r: bool)
    ensures
        r == is_white(c),
{
    let u = c as u32;
    (0x09 <= u && u <= 0x0d) || u == 0x20 || u == 0x85 || u == 0xa0 || u == 0x1680 || (0x2000 <= u
        && u <= 0x200a) || u == 0x2028 || u == 0x2029 || u == 0x202f || u == 0x205f || u == 0x3000
}

/// The number of whitespace characters that `s` starts with.
pub open spec fn leading_white(s: Seq<char>) -> nat
    decreases s.len(),
{
    if s.len() > 0 && is_white(s[0]) {
        1 + leading_white(s.drop_first())
    } else {
        0
    }
}

/// The number of whitespace characters that `s` ends with.
pub open spec fn trailing_white(s: Seq<char>) -> nat
    decreases s.len(),
{
    if s.len() > 0 && is_white(s.last()) {
        1 + trailing_white(s.drop_last())
    } else {
        0
    }
}

/// `s` without its leading and trailing whitespace.
pub open spec fn trim(s: Seq<char>) -> Seq<char> {
    let rest = s.subrange(leading_white(s) as int, s.len() as int);
    rest.subrange(0, rest.len() - trailing_white(rest))
}

proof fn lemma_leading_white(s: Seq<char>, i: int)
    requires
        0 <= i <= s.len(),
        forall|k: int| 0 <= k < i ==> is_white(#[trigger] s[k]),
        i < s.len() ==> !is_white(s[i]),
    ensures
        leading_white(s) == i,
    decreases i,
{
    if i > 0 {
        let t = s.drop_first();
        assert forall|k: int| 0 <= k < i - 1 implies is_white(#[trigger] t[k]) by {
            assert(t[k] == s[k + 1]);
        }
        if i - 1 < t.len() {
            assert(t[i - 1] == s[i]);
        }
        lemma_leading_white(t, i - 1);
    }
}

proof fn lemma_trailing_white(s: Seq<char>, j: int)
    requires
        0 <= j <= s.len(),
        forall|k: int| j <= k < s.len() ==> is_white(#[trigger] s[k]),
        j > 0 ==> !is_white(s[j - 1]),
    ensures
        trailing_white(s) == s.len() - j,
    decreases s.len() - j,
{
    if j < s.len() {
        let t = s.drop_last();
        assert forall|k: int| j <= k < t.len() implies is_white(#[trigger] t[k]) by {
            assert(t[k] == s[k]);
        }
        if j > 0 {
            assert(t[j - 1] == s[j - 1]);
        }
        lemma_trailing_white(t, j);
    }
}

/// A text that neither starts nor ends with whitespace is its own trim.
pub proof fn lemma_trim_unchanged(s: Seq<char>)
    requires
        s.len() > 0,
        !is_white(s[0]),
        !is_white(s.last()),
    ensures
        trim(s) == s,
{
    assert(leading_white(s) == 0);
    assert(s.subrange(0, s.len() as int) =~= s);
    assert(trailing_white(s) == 0);
}

/// `s` without its leading and trailing whitespace.
pub fn trimmed(s: &Vec<char>) -> (r: Vec<char>)
    ensures
        r@ == trim(s@),
{
    let n = s.len();
    let mut i: usize = 0;
    while i < n && white(s[i])
        invariant
            n == s.len(),
            0 <= i <= n,
            forall|k: int| 0 <= k < i ==> is_white(#[trigger] s@[k]),
        decreases n - i,
    {
        i += 1;
    }
    proof {
        lemma_leading_white(s@, i as int);
    }
    let ghost rest = s@.subrange(i as int, n as int);
    let mut j: usize = n;
    while j > i && white(s[j - 1])
        invariant
            n == s.len(),
            0 <= i <= j <= n,
            forall|k: int| j <= k < n ==> is_white(#[trigger] s@[k]),
        decreases j,
    {
        j -= 1;
    }
    proof {
        assert forall|k: int| j - i <= k < rest.len() implies is_white(#[trigger] rest[k]) by {
            assert(rest[k] == s@[k + i]);
        }
        if j > i {
            assert(rest[j - i - 1] == s@[j - 1]);
        }
        lemma_trailing_white(rest, j - i);
    }
    let mut r: Vec<char> = Vec::new();
    let mut k: usize = i;
    while k < j
        invariant
            n == s.len(),
            0 <= i <= k <= j <= n,
            r@ == s@.subrange(i as int, k as int),
        decreases j - k,
    {
        r.push(s[k]);
        k += 1;
    }
    assert(r@ =~= trim(s@));
    r
}

/// The position of the first `sep` in `s`, or the length of `s` if there
/// is none.
pub open spec fn first_index(s: Seq<char>, sep: char) -> nat
    decreases s.len(),
{
    if s.len() == 0 || s[0] == sep {
        0
    } else {
        1 + first_index(s.drop_first(), sep)
    }
}

/// The pieces of `s` between the occurrences of `sep`: one more piece than
/// there are separators.
pub open spec fn split_on(s: Seq<char>, sep: char) -> Seq<Seq<char>>
    decreases s.len(),
{
    let i = first_index(s, sep);
    if i >= s.len() {
        seq![s]
    } else {
        seq![s.subrange(0, i as int)] + split_on(s.subrange(i as int + 1, s.len() as int), sep)
    }
}

proof fn lemma_first_index(s: Seq<char>, sep: char, k: int)
    requires
        0 <= k <= s.len(),
        forall|t: int| 0 <= t < k ==> #[trigger] s[t] != sep,
        k < s.len() ==> s[k] == sep,
    ensures
        first_index(s, sep) == k,
    decreases k,
{
    if k > 0 {
        let d = s.drop_first();
        assert forall|t: int| 0 <= t < k - 1 implies #[trigger] d[t] != sep by {
            assert(d[t] == s[t + 1]);
        }
        if k - 1 < d.len() {
            assert(d[k - 1] == s[k]);
        }
        lemma_first_index(d, sep, k - 1);
    }
}

/// Splitting a piece free of `sep`, then `sep`, then the rest yields the
/// piece followed by the pieces of the rest.
pub proof fn lemma_split_on_prefix(a: Seq<char>, sep: char, b: Seq<char>)
    requires
        forall|t: int| 0 <= t < a.len() ==> #[trigger] a[t] != sep,
    ensures
        split_on(a + seq![sep] + b, sep) == seq![a] + split_on(b, sep),
{
    let s = a + seq![sep] + b;
    assert forall|t: int| 0 <= t < a.len() implies #[trigger] s[t] != sep by {
        assert(s[t] == a[t]);
    }
    lemma_first_index(s, sep, a.len() as int);
    assert(s.subrange(0, a.len() as int) =~= a);
    assert(s.subrange(a.len() as int + 1, s.len() as int) =~= b);
}

/// A text free of `sep` is a single piece.
pub proof fn lemma_split_on_whole(a: Seq<char>, sep: char)
    requires
        forall|t: int| 0 <= t < a.len() ==> #[trigger] a[t] != sep,
    ensures
        split_on(a, sep) == seq![a],
{
    lemma_first_index(a, sep, a.len() as int);
}

/// The views of a sequence of character vectors.
pub open spec fn views(v: Seq<Vec<char>>) -> Seq<Seq<char>> {
    v.map_values(|x: Vec<char>| x@)
}

/// The pieces of `s` between the occurrences of `sep`.
pub fn split(s: &Vec<char>, sep: char) -> (r: Vec<Vec<char>>)
    ensures
        views(r@) == split_on(s@, sep),
        r.len() >= 1,
{
    let n = s.len();
    let mut r: Vec<Vec<char>> = Vec::new();
    let mut cur: Vec<char> = Vec::new();
    let mut start: usize = 0;
    let mut i: usize = 0;
    assert(s@.subrange(0, n as int) =~= s@);
    assert(views(r@) + split_on(s@, sep) =~= split_on(s@, sep));
    while i < n
        invariant
            n == s.len(),
            0 <= start <= i <= n,
            cur@ == s@.subrange(start as int, i as int),
            forall|t: int| start <= t < i ==> #[trigger] s@[t] != sep,
            views(r@) + split_on(s@.subrange(start as int, n as int), sep) == split_on(s@, sep),
        decreases n - i,
    {
        if s[i] == sep {
            proof {
                let rest = s@.subrange(start as int, n as int);
                assert forall|t: int| 0 <= t < i - start implies #[trigger] rest[t] != sep by {
                    assert(rest[t] == s@[t + start]);
                }
                lemma_first_index(rest, sep, i - start);
                assert(rest.subrange(0, i - start) =~= cur@);
                assert(rest.subrange(i - start + 1, rest.len() as int) =~= s@.subrange(i + 1, n as int));
                assert(views(r@.push(cur)) =~= views(r@).push(cur@));
                assert(views(r@) + split_on(rest, sep) =~= views(r@).push(cur@) + split_on(
                    s@.subrange(i + 1, n as int),
                    sep,
                ));
            }
            r.push(cur);
            cur = Vec::new();
            start = i + 1;
        } else {
            cur.push(s[i]);
        }
        i += 1;
    }
    proof {
        let rest = s@.subrange(start as int, n as int);
        assert forall|t: int| 0 <= t < rest.len() implies #[trigger] rest[t] != sep by {
            assert(rest[t] == s@[t + start]);
        }
        lemma_first_index(rest, sep, rest.len() as int);
        assert(cur@ =~= rest);
        assert(views(r@.push(cur)) =~= views(r@).push(cur@));
        assert(views(r@) + split_on(rest, sep) =~= views(r@).push(cur@));
    }
    r.push(cur);
    r
}

/// A decimal digit.
pub open spec fn is_digit(c: char) -> bool {
    48 <= c as u32 <= 57
}

/// The value of a string of decimal digits.
pub open spec fn digits_value(s: Seq<char>) -> int
    decreases s.len(),
{
    if s.len() == 0 {
        0
    } else {
        digits_value(s.drop_last()) * 10 + (s.last() as u32 - 48)
    }
}

/// `s` without the sign that a numeral may start with.
pub open spec fn unsigned_part(s: Seq<char>) -> Seq<char> {
    if s.len() > 0 && s[0] == '+' {
        s.drop_first()
    } else {
        s
    }
}

/// Every character of `s` is a decimal digit.
pub open spec fn all_digits(s: Seq<char>) -> bool {
    forall|k: int| 0 <= k < s.len() ==> is_digit(#[trigger] s[k])
}

/// The value of an unsigned decimal numeral: an optional `+` and one or
/// more digits.
pub open spec fn numeral_value(s: Seq<char>) -> Option<int> {
    if unsigned_part(s).len() > 0 && all_digits(unsigned_part(s)) {
        Some(digits_value(unsigned_part(s)))
    } else {
        None
    }
}

proof fn lemma_prefix_bound(d: Seq<char>, m: int, cap: int)
    requires
        0 < m <= d.len(),
        0 <= cap,
        forall|k: int| 0 <= k < d.len() ==> is_digit(#[trigger] d[k]),
        digits_value(d.subrange(0, m)) > cap,
    ensures
        digits_value(d) > cap,
    decreases d.len() - m,
{
    if m < d.len() {
        let e = d.drop_last();
        assert(e.subrange(0, m) =~= d.subrange(0, m));
        assert(is_digit(d[d.len() - 1]));
        lemma_prefix_bound(e, m, cap);
    } else {
        assert(d.subrange(0, m) =~= d);
    }
}

/// The value of the numeral `s` when it is at most `cap`: `Some(v)` when
/// `s` is a numeral of value `v <= cap`, `None` otherwise.
pub fn small_numeral(s: &Vec<char>, cap: usize) -> (r: Option<usize>)
    requires
        cap <= 1000,
    ensures
        r matches Some(v) ==> numeral_value(s@) == Some(v as int),
        r is None ==> !(numeral_value(s@) matches Some(v) && v <= cap),
{
    let n = s.len();
    let start: usize = if n > 0 && s[0] == '+' {
        1
    } else {
        0
    };
    let ghost d = s@.subrange(start as int, n as int);
    proof {
        if n > 0 && s@[0] == '+' {
            assert(d =~= s@.drop_first());
        } else {
            assert(d =~= s@);
        }
    }
    assert(d == unsigned_part(s@));
    if start >= n {
        return None;
    }
    let mut v: usize = 0;
    let mut i: usize = start;
    while i < n
        invariant
            n == s.len(),
            cap <= 1000,
            0 <= start <= i <= n,
            d == s@.subrange(start as int, n as int),
            d == unsigned_part(s@),
            forall|k: int| start <= k < i ==> is_digit(#[trigger] s@[k]),
            v <= cap,
            v == digits_value(s@.subrange(start as int, i as int)),
        decreases n - i,
    {
        let c = s[i] as u32;
        if !(48 <= c && c <= 57) {
            proof {
                assert(d[i - start] == s@[i as int]);
                assert(!is_digit(d[i - start]));
            }
            return None;
        }
        let digit = (c - 48) as usize;
        proof {
            assert(s@.subrange(start as int, i + 1).drop_last() =~= s@.subrange(start as int, i as int));
        }
        let w = v * 10 + digit;
        if w > cap {
            proof {
                assert(s@[i as int] as u32 == c);
                if all_digits(d) {
                    assert(d.subrange(0, i + 1 - start) =~= s@.subrange(start as int, i + 1));
                    lemma_prefix_bound(d, i + 1 - start, cap as int);
                }
            }
            return None;
        }
        v = w;
        i += 1;
    }
    assert(d =~= s@.subrange(start as int, i as int));
    Some(v)
}

} // verus!
