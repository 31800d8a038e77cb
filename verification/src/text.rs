//! Character-level text handling for the mapfile format: whitespace
//! trimming, splitting a line into whitespace-delimited tokens, prefix
//! tests, and numeric tokens in the mapfile's three radixes
//! (`0x`-hexadecimal, leading-zero octal, plain decimal).

use vstd::prelude::*;
use vstd::string::StrSliceExecFns;

verus! {

/// Whitespace as this format understands it: the ASCII space and the ASCII
/// control whitespace characters.
pub open spec fn is_space(c: char) -> bool {
    c == ' ' || c == '\t' || c == '\n' || c == '\r' || c == '\x0b' || c == '\x0c'
}

fn is_space_exec(c: char) -> (r: bool)
    ensures
        r == is_space(c),
{
    c == ' ' || c == '\t' || c == '\n' || c == '\r' || c == '\x0b' || c == '\x0c'
}

/// Number of whitespace characters at the front of `s`.
pub open spec fn trim_start_len(s: Seq<char>) -> int
    decreases s.len(),
{
    if s.len() > 0 && is_space(s[0]) {
        1 + trim_start_len(s.drop_first())
    } else {
        0
    }
}

/// Number of whitespace characters at the back of `s`.
pub open spec fn trim_end_len(s: Seq<char>) -> int
    decreases s.len(),
{
    if s.len() > 0 && is_space(s.last()) {
        1 + trim_end_len(s.drop_last())
    } else {
        0
    }
}

/// `s` with surrounding whitespace removed.
pub open spec fn trim_spec(s: Seq<char>) -> Seq<char> {
    if trim_start_len(s) == s.len() {
        Seq::empty()
    } else {
        s.subrange(trim_start_len(s), s.len() - trim_end_len(s))
    }
}

proof fn lemma_trim_start_is(s: Seq<char>, m: int)
    requires
        0 <= m <= s.len(),
        forall|k: int| 0 <= k < m ==> is_space(s[k]),
        m < s.len() ==> !is_space(s[m]),
    ensures
        trim_start_len(s) == m,
    decreases m,
{
    if m == 0 {
    } else {
        assert(is_space(s[0]));
        lemma_trim_start_is(s.drop_first(), m - 1);
    }
}

proof fn lemma_trim_end_is(s: Seq<char>, m: int)
    requires
        0 <= m <= s.len(),
        forall|k: int| s.len() - m <= k < s.len() ==> is_space(s[k]),
        m < s.len() ==> !is_space(s[s.len() - m - 1]),
    ensures
        trim_end_len(s) == m,
    decreases m,
{
    if m == 0 {
    } else {
        assert(is_space(s.last()));
        lemma_trim_end_is(s.drop_last(), m - 1);
    }
}

/// `v` with surrounding whitespace removed, as a fresh vector.
pub fn trim_chars(v: &Vec<char>) -> (r: Vec<char>)
    ensures
        r@ == trim_spec(v@),
{
    let n = v.len();
    let mut lo: usize = 0;
    while lo < n && is_space_exec(v[lo])
        invariant
            n == v@.len(),
            0 <= lo <= n,
            forall|k: int| 0 <= k < lo ==> is_space(v@[k]),
        decreases n - lo,
    {
        lo += 1;
    }
    if lo == n {
        proof {
            lemma_trim_start_is(v@, n as int);
        }
        return Vec::new();
    }
    proof {
        lemma_trim_start_is(v@, lo as int);
    }
    let mut hi: usize = n;
    while hi > lo && is_space_exec(v[hi - 1])
        invariant
            n == v@.len(),
            lo < hi <= n || hi == lo,
            lo < n,
            !is_space(v@[lo as int]),
            forall|k: int| hi <= k < n ==> is_space(v@[k]),
        decreases hi,
    {
        hi -= 1;
    }
    proof {
        assert(lo < hi);
        lemma_trim_end_is(v@, n - hi as int);
    }
    let mut r: Vec<char> = Vec::new();
    let mut i: usize = lo;
    while i < hi
        invariant
            lo <= i <= hi <= n,
            n == v@.len(),
            r@ == v@.subrange(lo as int, i as int),
        decreases hi - i,
    {
        let c = v[i];
        r.push(c);
        i += 1;
        proof {
            assert(v@.subrange(lo as int, i as int) =~= v@.subrange(lo as int, i - 1).push(
                v@[i - 1],
            ));
        }
    }
    proof {
        assert(r@ =~= trim_spec(v@));
    }
    r
}

/// Length of the maximal non-whitespace prefix of `s`.
pub open spec fn token_len(s: Seq<char>) -> int
    decreases s.len(),
{
    if s.len() == 0 || is_space(s[0]) {
        0
    } else {
        1 + token_len(s.drop_first())
    }
}

proof fn lemma_token_len_bounds(s: Seq<char>)
    ensures
        0 <= token_len(s) <= s.len(),
    decreases s.len(),
{
    if s.len() > 0 && !is_space(s[0]) {
        lemma_token_len_bounds(s.drop_first());
    }
}

proof fn lemma_token_len_is(s: Seq<char>, m: int)
    requires
        0 <= m <= s.len(),
        forall|k: int| 0 <= k < m ==> !is_space(s[k]),
        m < s.len() ==> is_space(s[m]),
    ensures
        token_len(s) == m,
    decreases m,
{
    if m == 0 {
    } else {
        assert(!is_space(s[0]));
        lemma_token_len_is(s.drop_first(), m - 1);
    }
}

/// The whitespace-delimited tokens of `s`, in order, each non-empty.
pub open spec fn tokens_of(s: Seq<char>) -> Seq<Seq<char>>
    decreases s.len(),
    via tokens_of_decreases
{
    if s.len() == 0 {
        Seq::empty()
    } else if is_space(s[0]) {
        tokens_of(s.drop_first())
    } else {
        seq![s.take(token_len(s))] + tokens_of(s.skip(token_len(s)))
    }
}

#[via_fn]
proof fn tokens_of_decreases(s: Seq<char>) {
    if s.len() > 0 && !is_space(s[0]) {
        lemma_token_len_bounds(s);
        lemma_token_len_bounds(s.drop_first());
        assert(token_len(s) >= 1);
    }
}

/// The views of a vector of character vectors.
pub open spec fn views_of(ts: Seq<Vec<char>>) -> Seq<Seq<char>> {
    ts.map_values(|t: Vec<char>| t@)
}

/// Splits `v` on runs of whitespace, exactly as `tokens_of` describes.
pub fn split_whitespace_chars(v: &Vec<char>) -> (r: Vec<Vec<char>>)
    ensures
        views_of(r@) == tokens_of(v@),
{
    let n = v.len();
    let mut r: Vec<Vec<char>> = Vec::new();
    proof {
        assert(v@.skip(0) =~= v@);
        assert(views_of(r@) + tokens_of(v@) =~= tokens_of(v@));
    }
    let mut i: usize = 0;
    while i < n
        invariant
            n == v@.len(),
            0 <= i <= n,
            views_of(r@) + tokens_of(v@.skip(i as int)) == tokens_of(v@),
        decreases n - i,
    {
        if is_space_exec(v[i]) {
            proof {
                assert(v@.skip(i as int).drop_first() =~= v@.skip(i as int + 1));
            }
            i += 1;
        } else {
            let mut j: usize = i + 1;
            while j < n && !is_space_exec(v[j])
                invariant
                    i < j <= n,
                    n == v@.len(),
                    forall|k: int| i <= k < j ==> !is_space(v@[k]),
                decreases n - j,
            {
                j += 1;
            }
            let mut tok: Vec<char> = Vec::new();
            let mut k: usize = i;
            while k < j
                invariant
                    i <= k <= j <= n,
                    n == v@.len(),
                    tok@ == v@.subrange(i as int, k as int),
                decreases j - k,
            {
                let c = v[k];
                tok.push(c);
                k += 1;
                proof {
                    assert(v@.subrange(i as int, k as int) =~= v@.subrange(i as int, k - 1).push(
                        v@[k - 1],
                    ));
                }
            }
            proof {
                let s = v@.skip(i as int);
                assert forall|m: int| 0 <= m < j - i implies !is_space(s[m]) by {
                    assert(s[m] == v@[i + m]);
                }
                if j - i < s.len() {
                    assert(s[j - i] == v@[j as int]);
                }
                lemma_token_len_is(s, j - i);
                assert(s.take(j - i) =~= v@.subrange(i as int, j as int));
                assert(s.skip(j - i) =~= v@.skip(j as int));
                assert(tokens_of(s) == seq![tok@] + tokens_of(v@.skip(j as int)));
                assert(views_of(r@.push(tok)) =~= views_of(r@) + seq![tok@]);
                assert(views_of(r@.push(tok)) + tokens_of(v@.skip(j as int)) =~= views_of(r@)
                    + tokens_of(v@.skip(i as int)));
            }
            r.push(tok);
            i = j;
        }
    }
    proof {
        assert(v@.skip(n as int) =~= Seq::<char>::empty());
        assert(views_of(r@) + tokens_of(v@.skip(n as int)) =~= views_of(r@));
    }
    r
}

/// Whether `p` is a prefix of `s`.
pub open spec fn has_prefix(s: Seq<char>, p: Seq<char>) -> bool {
    p.len() <= s.len() && s.take(p.len() as int) == p
}

/// Prefix test of a character vector against a string.
pub fn has_prefix_exec(v: &Vec<char>, p: &str) -> (r: bool)
    ensures
        r == has_prefix(v@, p@),
{
    let pl = p.unicode_len();
    if pl > v.len() {
        return false;
    }
    let mut i: usize = 0;
    while i < pl
        invariant
            0 <= i <= pl,
            pl == p@.len(),
            pl <= v@.len(),
            forall|k: int| 0 <= k < i ==> v@[k] == p@[k],
        decreases pl - i,
    {
        if v[i] != p.get_char(i) {
            proof {
                assert(v@.take(pl as int)[i as int] == v@[i as int]);
            }
            return false;
        }
        i += 1;
    }
    proof {
        assert(v@.take(pl as int) =~= p@);
    }
    true
}

/// The characters of `v` from position `from` on, as a fresh vector.
pub fn suffix_chars(v: &Vec<char>, from: usize) -> (r: Vec<char>)
    requires
        from <= v@.len(),
    ensures
        r@ == v@.skip(from as int),
{
    let n = v.len();
    let mut r: Vec<char> = Vec::new();
    let mut i: usize = from;
    while i < n
        invariant
            from <= i <= n,
            n == v@.len(),
            r@ == v@.subrange(from as int, i as int),
        decreases n - i,
    {
        let c = v[i];
        r.push(c);
        i += 1;
        proof {
            assert(v@.subrange(from as int, i as int) =~= v@.subrange(from as int, i - 1).push(
                v@[i - 1],
            ));
        }
    }
    proof {
        assert(v@.subrange(from as int, n as int) =~= v@.skip(from as int));
    }
    r
}

/// The characters of `s`, as a vector.
pub fn str_chars(s: &str) -> (r: Vec<char>)
    ensures
        r@ == s@,
{
    let n = s.unicode_len();
    let mut r: Vec<char> = Vec::new();
    let mut i: usize = 0;
    while i < n
        invariant
            0 <= i <= n,
            n == s@.len(),
            r@ == s@.take(i as int),
        decreases n - i,
    {
        let c = s.get_char(i);
        r.push(c);
        i += 1;
        proof {
            assert(s@.take(i as int) =~= s@.take(i - 1).push(s@[i - 1]));
        }
    }
    proof {
        assert(s@.take(n as int) =~= s@);
    }
    r
}

/// Value of one digit character, `-1` when the character is no digit.
/// Hexadecimal digits are accepted in either case.
pub open spec fn digit_val(c: char) -> int {
    if c == '0' {
        0
    } else if c == '1' {
        1
    } else if c == '2' {
        2
    } else if c == '3' {
        3
    } else if c == '4' {
        4
    } else if c == '5' {
        5
    } else if c == '6' {
        6
    } else if c == '7' {
        7
    } else if c == '8' {
        8
    } else if c == '9' {
        9
    } else if c == 'a' || c == 'A' {
        10
    } else if c == 'b' || c == 'B' {
        11
    } else if c == 'c' || c == 'C' {
        12
    } else if c == 'd' || c == 'D' {
        13
    } else if c == 'e' || c == 'E' {
        14
    } else if c == 'f' || c == 'F' {
        15
    } else {
        -1
    }
}

fn digit_val_exec(c: char) -> (r: i64)
    ensures
        r == digit_val(c),
{
    if c == '0' {
        0
    } else if c == '1' {
        1
    } else if c == '2' {
        2
    } else if c == '3' {
        3
    } else if c == '4' {
        4
    } else if c == '5' {
        5
    } else if c == '6' {
        6
    } else if c == '7' {
        7
    } else if c == '8' {
        8
    } else if c == '9' {
        9
    } else if c == 'a' || c == 'A' {
        10
    } else if c == 'b' || c == 'B' {
        11
    } else if c == 'c' || c == 'C' {
        12
    } else if c == 'd' || c == 'D' {
        13
    } else if c == 'e' || c == 'E' {
        14
    } else if c == 'f' || c == 'F' {
        15
    } else {
        -1
    }
}

/// Whether every character of `s` is a digit under `radix`.
pub open spec fn all_digits(s: Seq<char>, radix: int) -> bool
    decreases s.len(),
{
    s.len() == 0 || (all_digits(s.drop_last(), radix) && 0 <= digit_val(s.last()) < radix)
}

/// The value of a digit string under `radix`, read left to right.
pub open spec fn num_val(s: Seq<char>, radix: int) -> int
    decreases s.len(),
{
    if s.len() == 0 {
        0
    } else {
        num_val(s.drop_last(), radix) * radix + digit_val(s.last())
    }
}

/// A digit string parses when it is non-empty, all digits fit the radix,
/// and the value fits a `u64`.
pub open spec fn radix_num(s: Seq<char>, radix: int) -> Option<u64> {
    if s.len() > 0 && all_digits(s, radix) && num_val(s, radix) <= u64::MAX {
        Some(num_val(s, radix) as u64)
    } else {
        None
    }
}

/// The radix rule of the mapfile format: `0x` selects hexadecimal, a single
/// leading zero followed by further characters selects octal, anything else
/// is decimal.
pub open spec fn parse_num_spec(t: Seq<char>) -> Option<u64> {
    if t.len() >= 2 && t[0] == '0' && t[1] == 'x' {
        radix_num(t.skip(2), 16)
    } else if t.len() >= 2 && t[0] == '0' {
        radix_num(t.skip(1), 8)
    } else {
        radix_num(t, 10)
    }
}

proof fn lemma_all_digits_char(s: Seq<char>, radix: int)
    requires
        all_digits(s, radix),
    ensures
        forall|k: int| 0 <= k < s.len() ==> 0 <= #[trigger] digit_val(s[k]) < radix,
    decreases s.len(),
{
    if s.len() > 0 {
        lemma_all_digits_char(s.drop_last(), radix);
        assert forall|k: int| 0 <= k < s.len() implies 0 <= #[trigger] digit_val(s[k]) < radix by {
            if k < s.len() - 1 {
                assert(s.drop_last()[k] == s[k]);
            }
        }
    }
}

proof fn lemma_not_all_digits(s: Seq<char>, radix: int, k: int)
    requires
        0 <= k < s.len(),
        !(0 <= digit_val(s[k]) < radix),
    ensures
        !all_digits(s, radix),
{
    if all_digits(s, radix) {
        lemma_all_digits_char(s, radix);
    }
}

proof fn lemma_num_val_nonneg(s: Seq<char>, radix: int)
    requires
        all_digits(s, radix),
        radix >= 2,
    ensures
        num_val(s, radix) >= 0,
    decreases s.len(),
{
    if s.len() > 0 {
        lemma_num_val_nonneg(s.drop_last(), radix);
        assert(num_val(s.drop_last(), radix) * radix >= 0) by (nonlinear_arith)
            requires
                num_val(s.drop_last(), radix) >= 0,
                radix >= 2,
        ;
    }
}

proof fn lemma_num_val_prefix(s: Seq<char>, radix: int, i: int)
    requires
        all_digits(s, radix),
        radix >= 2,
        0 <= i <= s.len(),
    ensures
        num_val(s.take(i), radix) <= num_val(s, radix),
        all_digits(s.take(i), radix),
    decreases s.len() - i,
{
    if i == s.len() {
        assert(s.take(i) =~= s);
    } else {
        assert(s.take(s.len() - 1) =~= s.drop_last());
        lemma_num_val_prefix(s.drop_last(), radix, i);
        assert(s.drop_last().take(i) =~= s.take(i));
        lemma_num_val_nonneg(s.drop_last(), radix);
        assert(num_val(s.drop_last(), radix) * radix >= num_val(s.drop_last(), radix))
            by (nonlinear_arith)
            requires
                num_val(s.drop_last(), radix) >= 0,
                radix >= 2,
        ;
    }
}

/// Parses one numeric token under the radix rule.
pub fn parse_number(t: &Vec<char>) -> (r: Option<u64>)
    ensures
        r == parse_num_spec(t@),
{
    let n = t.len();
    let (start, radix): (usize, u64) = if n >= 2 && t[0] == '0' && t[1] == 'x' {
        (2, 16)
    } else if n >= 2 && t[0] == '0' {
        (1, 8)
    } else {
        (0, 10)
    };
    let ghost s = t@.skip(start as int);
    proof {
        assert(t@.skip(0) =~= t@);
        assert(parse_num_spec(t@) == radix_num(s, radix as int));
    }
    if n == start {
        return None;
    }
    let mut acc: u64 = 0;
    let mut i: usize = start;
    while i < n
        invariant
            start <= i <= n,
            n == t@.len(),
            n > start,
            radix == 16 || radix == 8 || radix == 10,
            s == t@.skip(start as int),
            parse_num_spec(t@) == radix_num(s, radix as int),
            all_digits(s.take(i - start), radix as int),
            acc == num_val(s.take(i - start), radix as int),
        decreases n - i,
    {
        let d = digit_val_exec(t[i]);
        if d < 0 || d >= radix as i64 {
            proof {
                assert(s[i - start] == t@[i as int]);
                lemma_not_all_digits(s, radix as int, i - start);
            }
            return None;
        }
        let du = d as u64;
        proof {
            assert(s.take(i - start + 1).drop_last() =~= s.take(i - start));
            assert(s.take(i - start + 1).last() == t@[i as int]);
            assert(all_digits(s.take(i - start + 1), radix as int));
            assert(num_val(s.take(i - start + 1), radix as int) == acc * (radix as int) + du);
        }
        let m = match acc.checked_mul(radix) {
            Some(m) => m,
            None => {
                proof {
                    if all_digits(s, radix as int) {
                        lemma_num_val_prefix(s, radix as int, i - start + 1);
                    }
                }
                return None;
            },
        };
        acc = match m.checked_add(du) {
            Some(x) => x,
            None => {
                proof {
                    if all_digits(s, radix as int) {
                        lemma_num_val_prefix(s, radix as int, i - start + 1);
                    }
                }
                return None;
            },
        };
        i += 1;
    }
    proof {
        assert(s.take(n - start) =~= s);
    }
    Some(acc)
}

} // verus!
