//! Verified text helpers for the wire format: canonical decimal numbers and
//! separator-based splitting and joining of character sequences.

use vstd::prelude::*;

verus! {

/// The numeric value of one decimal digit character.
pub open spec fn digit_val(c: char) -> int {
    c as int - '0' as int
}

/// Whether `c` is a decimal digit.
pub open spec fn is_digit(c: char) -> bool {
    '0' <= c && c <= '9'
}

/// Whether every character of `s` is a decimal digit.
pub open spec fn all_digits(s: Seq<char>) -> bool {
    forall|i: int| 0 <= i < s.len() ==> is_digit(#[trigger] s[i])
}

/// The digit character for a value below ten.
pub open spec fn digit_char(d: int) -> char
    recommends
        0 <= d < 10,
{
    if d == 0 {
        '0'
    } else if d == 1 {
        '1'
    } else if d == 2 {
        '2'
    } else if d == 3 {
        '3'
    } else if d == 4 {
        '4'
    } else if d == 5 {
        '5'
    } else if d == 6 {
        '6'
    } else if d == 7 {
        '7'
    } else if d == 8 {
        '8'
    } else {
        '9'
    }
}

/// The canonical decimal representation of a non-negative integer:
/// no sign and no leading zeroes, except for the single digit of zero.
pub open spec fn digits_of(n: int) -> Seq<char>
    recommends
        n >= 0,
    decreases n,
{
    if n < 10 {
        seq![digit_char(n)]
    } else {
        digits_of(n / 10).push(digit_char(n % 10))
    }
}

/// The numeric value of a digit string, most significant digit first.
pub open spec fn digits_val(s: Seq<char>) -> int
    decreases s.len(),
{
    if s.len() == 0 {
        0
    } else {
        digits_val(s.drop_last()) * 10 + digit_val(s.last())
    }
}

/// Whether `s` contains no occurrence of the character `sep`.
pub open spec fn free_of(s: Seq<char>, sep: char) -> bool {
    forall|i: int| 0 <= i < s.len() ==> #[trigger] s[i] != sep
}

/// The segments of `s` between occurrences of `sep`, in order.  A string
/// without the separator is one segment; each separator ends a segment, so
/// `n` separators give `n + 1` segments.
pub open spec fn split_on(s: Seq<char>, sep: char) -> Seq<Seq<char>>
    decreases s.len(),
{
    if s.len() == 0 {
        seq![Seq::<char>::empty()]
    } else if s[0] == sep {
        seq![Seq::<char>::empty()] + split_on(s.drop_first(), sep)
    } else {
        let rest = split_on(s.drop_first(), sep);
        seq![seq![s[0]] + rest[0]] + rest.drop_first()
    }
}

/// The segments of `parts` joined with a single `sep` between neighbours.
pub open spec fn join_with(parts: Seq<Seq<char>>, sep: char) -> Seq<char>
    decreases parts.len(),
{
    if parts.len() == 0 {
        Seq::<char>::empty()
    } else if parts.len() == 1 {
        parts[0]
    } else {
        parts[0] + seq![sep] + join_with(parts.drop_first(), sep)
    }
}

/// A digit character is neither a separator used by the wire format nor a
/// line break, and its value is the digit it shows.
pub proof fn lemma_digit_char(d: int)
    requires
        0 <= d < 10,
    ensures
        is_digit(digit_char(d)),
        digit_val(digit_char(d)) == d,
        digit_char(d) != ',',
        digit_char(d) != '\n',
{
}

/// The canonical decimal representation of `n` is a non-empty digit string
/// whose value is `n`.
pub proof fn lemma_digits_of(n: int)
    requires
        n >= 0,
    ensures
        digits_of(n).len() >= 1,
        all_digits(digits_of(n)),
        digits_val(digits_of(n)) == n,
    decreases n,
{
    if n < 10 {
        lemma_digit_char(n);
        assert(digits_of(n) =~= seq![digit_char(n)]);
        assert(digits_of(n).drop_last() =~= Seq::<char>::empty());
        assert(digits_of(n).last() == digit_char(n));
        assert(digits_val(digits_of(n)) == digits_val(Seq::<char>::empty()) * 10 + digit_val(
            digit_char(n),
        ));
    } else {
        lemma_digits_of(n / 10);
        lemma_digit_char(n % 10);
        vstd::arithmetic::div_mod::lemma_fundamental_div_mod(n, 10);
        let pre = digits_of(n / 10);
        let whole = pre.push(digit_char(n % 10));
        assert(whole.drop_last() =~= pre);
        assert(whole.last() == digit_char(n % 10));
        assert(digits_val(whole) == digits_val(pre) * 10 + (n % 10));
        assert(forall|i: int|
            0 <= i < whole.len() ==> is_digit(#[trigger] whole[i])) by {
            assert(forall|i: int|
                0 <= i < pre.len() ==> is_digit(#[trigger] whole[i]) == is_digit(pre[i]));
        }
    }
}

/// The value of a digit string is non-negative.
pub proof fn lemma_digits_val_nonneg(s: Seq<char>)
    requires
        all_digits(s),
    ensures
        digits_val(s) >= 0,
    decreases s.len(),
{
    if s.len() > 0 {
        assert(all_digits(s.drop_last()));
        lemma_digits_val_nonneg(s.drop_last());
        assert(is_digit(s.last()));
    }
}

/// Extending a digit string on the right multiplies its value by ten and
/// adds the new digit.
pub proof fn lemma_digits_val_step(s: Seq<char>, i: int)
    requires
        0 <= i < s.len(),
    ensures
        digits_val(s.take(i + 1)) == digits_val(s.take(i)) * 10 + digit_val(s[i]),
{
    assert(s.take(i + 1).drop_last() =~= s.take(i));
    assert(s.take(i + 1).last() == s[i]);
}

/// A prefix of a digit string never has a larger value than the whole.
pub proof fn lemma_digits_val_prefix_le(s: Seq<char>, i: int)
    requires
        all_digits(s),
        0 <= i <= s.len(),
    ensures
        digits_val(s.take(i)) <= digits_val(s),
    decreases s.len() - i,
{
    if i == s.len() {
        assert(s.take(i) =~= s);
    } else {
        lemma_digits_val_step(s, i);
        assert(all_digits(s.take(i))) by {
            assert(forall|j: int| 0 <= j < i ==> is_digit(#[trigger] s.take(i)[j]));
        }
        lemma_digits_val_nonneg(s.take(i));
        assert(is_digit(s[i]));
        assert(digits_val(s.take(i + 1)) >= digits_val(s.take(i)));
        lemma_digits_val_prefix_le(s, i + 1);
    }
}

/// Splitting always yields at least one segment, and no segment contains the
/// separator.
pub proof fn lemma_split_on_parts(s: Seq<char>, sep: char)
    ensures
        split_on(s, sep).len() >= 1,
        forall|k: int|
            0 <= k < split_on(s, sep).len() ==> free_of(#[trigger] split_on(s, sep)[k], sep),
    decreases s.len(),
{
    if s.len() == 0 {
    } else if s[0] == sep {
        lemma_split_on_parts(s.drop_first(), sep);
        let rest = split_on(s.drop_first(), sep);
        let whole = split_on(s, sep);
        assert(whole =~= seq![Seq::<char>::empty()] + rest);
        assert(forall|k: int| 0 <= k < whole.len() ==> free_of(#[trigger] whole[k], sep)) by {
            assert(forall|k: int| 1 <= k < whole.len() ==> whole[k] =~= rest[k - 1]);
        }
    } else {
        lemma_split_on_parts(s.drop_first(), sep);
        let rest = split_on(s.drop_first(), sep);
        let whole = split_on(s, sep);
        assert(whole =~= seq![seq![s[0]] + rest[0]] + rest.drop_first());
        assert(free_of(whole[0], sep)) by {
            assert(free_of(rest[0], sep));
            assert(forall|i: int|
                1 <= i < whole[0].len() ==> #[trigger] whole[0][i] == rest[0][i - 1]);
        }
        assert(forall|k: int| 1 <= k < whole.len() ==> whole[k] =~= rest[k]);
    }
}

/// Splitting cannot introduce a character: a string free of `c` splits into
/// segments free of `c`.
pub proof fn lemma_split_on_free_other(s: Seq<char>, sep: char, c: char)
    requires
        free_of(s, c),
    ensures
        forall|k: int|
            0 <= k < split_on(s, sep).len() ==> free_of(#[trigger] split_on(s, sep)[k], c),
    decreases s.len(),
{
    if s.len() == 0 {
    } else if s[0] == sep {
        assert(free_of(s.drop_first(), c));
        lemma_split_on_free_other(s.drop_first(), sep, c);
        let rest = split_on(s.drop_first(), sep);
        let whole = split_on(s, sep);
        assert(whole =~= seq![Seq::<char>::empty()] + rest);
        assert(forall|k: int| 1 <= k < whole.len() ==> whole[k] =~= rest[k - 1]);
    } else {
        assert(free_of(s.drop_first(), c));
        lemma_split_on_free_other(s.drop_first(), sep, c);
        let rest = split_on(s.drop_first(), sep);
        let whole = split_on(s, sep);
        assert(whole =~= seq![seq![s[0]] + rest[0]] + rest.drop_first());
        assert(free_of(whole[0], c)) by {
            assert(free_of(rest[0], c));
            assert(whole[0][0] == s[0]);
            assert(forall|i: int|
                1 <= i < whole[0].len() ==> #[trigger] whole[0][i] == rest[0][i - 1]);
        }
        assert(forall|k: int| 1 <= k < whole.len() ==> whole[k] =~= rest[k]);
    }
}

/// If the first separator of `s` stands at `p`, the first segment is the
/// prefix before `p` and the rest is the splitting of what follows `p`.
pub proof fn lemma_split_on_first(s: Seq<char>, sep: char, p: int)
    requires
        0 <= p < s.len(),
        s[p] == sep,
        forall|j: int| 0 <= j < p ==> #[trigger] s[j] != sep,
    ensures
        split_on(s, sep) =~~= seq![s.take(p)] + split_on(s.skip(p + 1), sep),
    decreases p,
{
    if p == 0 {
        assert(s.take(0) =~= Seq::<char>::empty());
        assert(s.skip(1) =~= s.drop_first());
    } else {
        let d = s.drop_first();
        lemma_split_on_first(d, sep, p - 1);
        let rest = split_on(d, sep);
        assert(rest =~~= seq![d.take(p - 1)] + split_on(d.skip(p), sep));
        assert(seq![s[0]] + rest[0] =~= s.take(p)) by {
            assert(rest[0] =~= d.take(p - 1));
        }
        assert(d.skip(p) =~= s.skip(p + 1));
        assert(rest.drop_first() =~~= split_on(s.skip(p + 1), sep));
        assert(split_on(s, sep) =~~= seq![seq![s[0]] + rest[0]] + rest.drop_first());
    }
}

/// A string without the separator splits into itself alone.
pub proof fn lemma_split_on_none(s: Seq<char>, sep: char)
    requires
        free_of(s, sep),
    ensures
        split_on(s, sep) =~~= seq![s],
    decreases s.len(),
{
    if s.len() == 0 {
        assert(split_on(s, sep) =~~= seq![s]);
    } else {
        let d = s.drop_first();
        assert(free_of(d, sep));
        lemma_split_on_none(d, sep);
        let rest = split_on(d, sep);
        assert(rest =~~= seq![d]);
        assert(seq![s[0]] + rest[0] =~= s);
        assert(split_on(s, sep) =~~= seq![s]);
    }
}

/// Splitting inverts joining: joining separator-free segments and splitting
/// the result gives the segments back.
pub proof fn lemma_join_split(parts: Seq<Seq<char>>, sep: char)
    requires
        parts.len() >= 1,
        forall|k: int| 0 <= k < parts.len() ==> free_of(#[trigger] parts[k], sep),
    ensures
        split_on(join_with(parts, sep), sep) =~~= parts,
    decreases parts.len(),
{
    if parts.len() == 1 {
        lemma_split_on_none(parts[0], sep);
        assert(join_with(parts, sep) == parts[0]);
        assert(split_on(join_with(parts, sep), sep) =~~= seq![parts[0]]);
        assert(seq![parts[0]] =~~= parts);
    } else {
        let s = join_with(parts, sep);
        let p = parts[0].len() as int;
        let tail = join_with(parts.drop_first(), sep);
        assert(s =~= parts[0] + seq![sep] + tail);
        assert(s.len() == p + 1 + tail.len());
        assert(forall|j: int| 0 <= j < p ==> #[trigger] s[j] != sep) by {
            assert(forall|j: int| 0 <= j < p ==> s[j] == parts[0][j]);
            assert(free_of(parts[0], sep));
        }
        assert(s[p] == sep);
        lemma_split_on_first(s, sep, p);
        assert(s.take(p) =~= parts[0]);
        assert(s.skip(p + 1) =~= tail);
        lemma_join_split(parts.drop_first(), sep);
        assert(split_on(s, sep) =~~= seq![parts[0]] + parts.drop_first());
        assert(seq![parts[0]] + parts.drop_first() =~~= parts);
    }
}

/// Appending one more segment appends one separator and the segment.
pub proof fn lemma_join_snoc(parts: Seq<Seq<char>>, q: Seq<char>, sep: char)
    requires
        parts.len() >= 1,
    ensures
        join_with(parts.push(q), sep) =~= join_with(parts, sep) + seq![sep] + q,
    decreases parts.len(),
{
    if parts.len() == 1 {
        let two = parts.push(q);
        assert(two.drop_first() =~= seq![q]);
        assert(join_with(seq![q], sep) == q);
        assert(join_with(two, sep) =~= two[0] + seq![sep] + join_with(two.drop_first(), sep));
    } else {
        lemma_join_snoc(parts.drop_first(), q, sep);
        let whole = parts.push(q);
        assert(whole.drop_first() =~= parts.drop_first().push(q));
        assert(join_with(whole, sep) =~= whole[0] + seq![sep] + join_with(whole.drop_first(), sep));
        assert(join_with(parts, sep) =~= parts[0] + seq![sep] + join_with(parts.drop_first(), sep));
    }
}

/// The canonical decimal text of a number holds neither a comma nor a line
/// break.
pub proof fn lemma_digits_free(n: int)
    requires
        n >= 0,
    ensures
        free_of(digits_of(n), ','),
        free_of(digits_of(n), '\n'),
{
    lemma_digits_of(n);
    assert(forall|i: int| 0 <= i < digits_of(n).len() ==> #[trigger] digits_of(n)[i] != ','
        && digits_of(n)[i] != '\n') by {
        assert(forall|i: int| 0 <= i < digits_of(n).len() ==> is_digit(#[trigger] digits_of(n)[i]));
    }
}

/// Joining with one separator introduces no occurrence of a different
/// character that the segments are free of.
pub proof fn lemma_join_free(parts: Seq<Seq<char>>, sep: char, c: char)
    requires
        c != sep,
        forall|k: int| 0 <= k < parts.len() ==> free_of(#[trigger] parts[k], c),
    ensures
        free_of(join_with(parts, sep), c),
    decreases parts.len(),
{
    if parts.len() == 0 {
    } else if parts.len() == 1 {
        assert(free_of(parts[0], c));
    } else {
        lemma_join_free(parts.drop_first(), sep, c);
        let tail = join_with(parts.drop_first(), sep);
        let s = join_with(parts, sep);
        assert(s =~= parts[0] + seq![sep] + tail);
        assert(forall|i: int| 0 <= i < s.len() ==> #[trigger] s[i] != c) by {
            let p = parts[0].len() as int;
            assert(forall|i: int| 0 <= i < p ==> s[i] == parts[0][i]);
            assert(forall|i: int| p + 1 <= i < s.len() ==> s[i] == tail[i - p - 1]);
        }
    }
}

/// One digit as a borrowed string slice.
fn digit_to_str(d: u64) -> (r: &'static str)
    requires
        d < 10,
    ensures
        r@ == seq![digit_char(d as int)],
{
    let r: &'static str = if d == 0 {
        proof { reveal_strlit("0"); }
        "0"
    } else if d == 1 {
        proof { reveal_strlit("1"); }
        "1"
    } else if d == 2 {
        proof { reveal_strlit("2"); }
        "2"
    } else if d == 3 {
        proof { reveal_strlit("3"); }
        "3"
    } else if d == 4 {
        proof { reveal_strlit("4"); }
        "4"
    } else if d == 5 {
        proof { reveal_strlit("5"); }
        "5"
    } else if d == 6 {
        proof { reveal_strlit("6"); }
        "6"
    } else if d == 7 {
        proof { reveal_strlit("7"); }
        "7"
    } else if d == 8 {
        proof { reveal_strlit("8"); }
        "8"
    } else {
        proof { reveal_strlit("9"); }
        "9"
    };
    proof {
        assert(r@ =~= seq![digit_char(d as int)]);
    }
    r
}

/// The canonical decimal text of `n`.
pub fn u64_to_string(n: u64) -> (r: String)
    ensures
        r@ == digits_of(n as int),
        all_digits(r@),
        r@.len() >= 1,
{
    let mut rev: Vec<u64> = Vec::new();
    let mut m: u64 = n;
    proof {
        lemma_digits_of(n as int);
    }
    // Peel digits from the right; `rev` holds them least significant first.
    while m >= 10
        invariant
            forall|i: int| 0 <= i < rev.len() ==> #[trigger] rev@[i] < 10,
            digits_of(n as int) =~= digits_of(m as int) + Seq::new(
                rev.len() as nat,
                |i: int| digit_char(rev@[rev@.len() - 1 - i] as int),
            ),
        decreases m,
    {
        let d = m % 10;
        let m2 = m / 10;
        proof {
            let tail = Seq::new(rev.len() as nat, |i: int| digit_char(rev@[rev@.len() - 1 - i] as int));
            let rev2 = rev@.push(d);
            let tail2 = Seq::new(rev2.len() as nat, |i: int| digit_char(rev2[rev2.len() - 1 - i] as int));
            assert(digits_of(m as int) =~= digits_of(m2 as int).push(digit_char(d as int)));
            assert(tail2 =~= seq![digit_char(d as int)] + tail) by {
                assert(tail2.len() == tail.len() + 1);
                assert(tail2[0] == digit_char(rev2[rev2.len() - 1] as int));
                assert(rev2[rev2.len() - 1] == d);
                assert(forall|i: int| 1 <= i < tail2.len() ==> #[trigger] tail2[i] == tail[i - 1]) by {
                    assert(forall|i: int|
                        1 <= i < tail2.len() ==> rev2[rev2.len() - 1 - i] == rev@[rev@.len() - 1 - (
                        #[trigger] (i - 1))]);
                }
            }
            assert(digits_of(m2 as int).push(digit_char(d as int)) + tail
                =~= digits_of(m2 as int) + (seq![digit_char(d as int)] + tail));
        }
        rev.push(d);
        m = m2;
    }
    let mut out = String::new();
    let last = digit_to_str(m);
    out.append(last);
    proof {
        assert(digits_of(m as int) =~= seq![digit_char(m as int)]);
        assert(out@ =~= digits_of(n as int).take(1));
    }
    let mut j: usize = 0;
    while j < rev.len()
        invariant
            j <= rev.len(),
            forall|i: int| 0 <= i < rev.len() ==> #[trigger] rev@[i] < 10,
            digits_of(n as int).len() == 1 + rev.len(),
            out@ =~= digits_of(n as int).take(1 + j as int),
            digits_of(n as int) =~= seq![digits_of(n as int)[0]] + Seq::new(
                rev.len() as nat,
                |i: int| digit_char(rev@[rev@.len() - 1 - i] as int),
            ),
        decreases rev.len() - j,
    {
        let d = rev[rev.len() - 1 - j];
        let ds = digit_to_str(d);
        out.append(ds);
        proof {
            let full = digits_of(n as int);
            assert(full[1 + j as int] == digit_char(rev@[rev@.len() - 1 - j as int] as int));
            assert(out@ =~= full.take(1 + j as int).push(full[1 + j as int]));
            assert(full.take(1 + j as int).push(full[1 + j as int]) =~= full.take(2 + j as int));
        }
        j += 1;
    }
    proof {
        assert(out@ =~= digits_of(n as int));
        lemma_digits_of(n as int);
    }
    out
}

/// Parses canonical decimal text into a number.  Succeeds exactly on a
/// non-empty, all-digit string whose value fits in the result type.
pub fn parse_u64(s: &str) -> (r: Option<u64>)
    ensures
        match r {
            Some(v) => s@.len() >= 1 && all_digits(s@) && digits_val(s@) == v as int,
            None => !(s@.len() >= 1 && all_digits(s@) && digits_val(s@) <= u64::MAX as int),
        },
{
    let n = s.unicode_len();
    if n == 0 {
        return None;
    }
    let mut acc: u64 = 0;
    let mut i: usize = 0;
    while i < n
        invariant
            0 < n == s@.len(),
            i <= n,
            all_digits(s@.take(i as int)),
            digits_val(s@.take(i as int)) == acc as int,
        decreases n - i,
    {
        let c = s.get_char(i);
        let u = c as u32;
        if u < 48 || u > 57 {
            proof {
                assert(!is_digit(s@[i as int]));
            }
            return None;
        }
        let d = (u - 48) as u64;
        proof {
            assert(is_digit(s@[i as int]));
            assert(digit_val(s@[i as int]) == d as int);
        }
        let acc10 = match acc.checked_mul(10) {
            Some(v) => v,
            None => {
                proof {
                    overflow_reasoning(s@, i as int, acc as int, d as int);
                }
                return None;
            },
        };
        let acc2 = match acc10.checked_add(d) {
            Some(v) => v,
            None => {
                proof {
                    overflow_reasoning(s@, i as int, acc as int, d as int);
                }
                return None;
            },
        };
        proof {
            lemma_digits_val_step(s@, i as int);
        }
        acc = acc2;
        i += 1;
    }
    proof {
        assert(s@.take(n as int) =~= s@);
    }
    Some(acc)
}

/// If the next step of the accumulation leaves `u64`, the whole string's
/// value leaves it too.
proof fn overflow_reasoning(s: Seq<char>, i: int, acc: int, d: int)
    requires
        0 <= i < s.len(),
        all_digits(s.take(i)),
        digits_val(s.take(i)) == acc,
        is_digit(s[i]),
        digit_val(s[i]) == d,
        acc * 10 + d > u64::MAX as int,
    ensures
        !(all_digits(s) && digits_val(s) <= u64::MAX as int),
{
    if all_digits(s) {
        lemma_digits_val_step(s, i);
        lemma_digits_val_prefix_le(s, i + 1);
        assert(digits_val(s.take(i + 1)) == acc * 10 + d);
    }
}

/// The position of the first occurrence of `sep` at or after `from`.
pub fn find_char(s: &str, from: usize, sep: char) -> (r: Option<usize>)
    requires
        from <= s@.len(),
    ensures
        match r {
            Some(p) => from <= p < s@.len() && s@[p as int] == sep && forall|j: int|
                from <= j < p ==> #[trigger] s@[j] != sep,
            None => forall|j: int| from <= j < s@.len() ==> #[trigger] s@[j] != sep,
        },
{
    let n = s.unicode_len();
    let mut i: usize = from;
    while i < n
        invariant
            from <= i <= n == s@.len(),
            forall|j: int| from <= j < i ==> #[trigger] s@[j] != sep,
        decreases n - i,
    {
        let c = s.get_char(i);
        if c == sep {
            return Some(i);
        }
        i += 1;
    }
    None
}

/// Splits `s` at every occurrence of `sep` into borrowed slices.
pub fn split_str<'a>(s: &'a str, sep: char) -> (r: Vec<&'a str>)
    ensures
        r@.map_values(|t: &str| t@) =~~= split_on(s@, sep),
        r@.len() >= 1,
{
    let n = s.unicode_len();
    let mut fields: Vec<&'a str> = Vec::new();
    let mut start: usize = 0;
    proof {
        assert(s@.skip(0) =~= s@);
        assert(fields@.map_values(|t: &str| t@) =~= Seq::<Seq<char>>::empty());
        assert(Seq::<Seq<char>>::empty() + split_on(s@, sep) =~~= split_on(s@, sep));
    }
    loop
        invariant
            start <= n == s@.len(),
            split_on(s@, sep) =~~= fields@.map_values(|t: &str| t@) + split_on(
                s@.skip(start as int),
                sep,
            ),
        decreases n - start,
    {
        match find_char(s, start, sep) {
            Some(p) => {
                let f = s.substring_char(start, p);
                proof {
                    let t = s@.skip(start as int);
                    assert(t[p - start] == sep);
                    assert(forall|j: int| 0 <= j < p - start ==> #[trigger] t[j] != sep);
                    lemma_split_on_first(t, sep, p - start as int);
                    assert(t.take(p - start) =~= s@.subrange(start as int, p as int));
                    assert(t.skip(p - start + 1) =~= s@.skip(p + 1));
                    let old_map = fields@.map_values(|q: &str| q@);
                    let new_map = fields@.push(f).map_values(|q: &str| q@);
                    assert(new_map =~= old_map.push(f@));
                    assert(old_map + (seq![t.take(p - start as int)] + split_on(s@.skip(p as int + 1), sep))
                        =~~= (old_map.push(f@)) + split_on(s@.skip(p as int + 1), sep));
                }
                fields.push(f);
                start = p + 1;
            },
            None => {
                let f = s.substring_char(start, n);
                proof {
                    let t = s@.skip(start as int);
                    assert(free_of(t, sep));
                    lemma_split_on_none(t, sep);
                    assert(t =~= s@.subrange(start as int, n as int));
                    let old_map = fields@.map_values(|q: &str| q@);
                    let new_map = fields@.push(f).map_values(|q: &str| q@);
                    assert(new_map =~= old_map.push(f@));
                    assert(old_map + seq![t] =~~= new_map);
                }
                fields.push(f);
                proof {
                    assert(fields@.len() >= 1);
                }
                return fields;
            },
        }
    }
}

/// Whether two string slices hold the same characters.
pub fn str_eq_str(a: &str, b: &str) -> (r: bool)
    ensures
        r == (a@ == b@),
{
    let na = a.unicode_len();
    let nb = b.unicode_len();
    if na != nb {
        return false;
    }
    let mut i: usize = 0;
    while i < na
        invariant
            i <= na == a@.len(),
            na == nb == b@.len(),
            forall|j: int| 0 <= j < i ==> #[trigger] a@[j] == b@[j],
        decreases na - i,
    {
        if a.get_char(i) != b.get_char(i) {
            return false;
        }
        i += 1;
    }
    proof {
        assert(a@ =~= b@);
    }
    true
}

/// Whether `s` contains the character `c`.
pub fn str_has_char(s: &str, c: char) -> (r: bool)
    ensures
        r == !free_of(s@, c),
{
    match find_char(s, 0, c) {
        Some(_) => true,
        None => false,
    }
}

} // verus!
