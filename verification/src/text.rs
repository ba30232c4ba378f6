//! The lexical layer of the farm format: whitespace, trimming, splitting a line into its
//! whitespace-separated fields or at a separator, and decimal integers.
use vstd::prelude::*;
use itertools::Itertools;

verus! {

/// Unicode `White_Space`, the characters that `char::is_whitespace` accepts.
pub open spec fn is_ws(c: char) -> bool {
    let u = c as u32;
    ||| 0x9 <= u <= 0xd
    ||| u == 0x20
    ||| u == 0x85
    ||| u == 0xa0
    ||| u == 0x1680
    ||| 0x2000 <= u <= 0x200a
    ||| u == 0x2028
    ||| u == 0x2029
    ||| u == 0x202f
    ||| u == 0x205f
    ||| u == 0x3000
}

/// Tells whether `c` is whitespace.
pub fn is_whitespace(c: char) -> (r: bool)
    ensures
        r == is_ws(c),
{
    let u = c as u32;
    (0x9 <= u && u <= 0xd) || u == 0x20 || u == 0x85 || u == 0xa0 || u == 0x1680 || (0x2000 <= u
        && u <= 0x200a) || u == 0x2028 || u == 0x2029 || u == 0x202f || u == 0x205f || u == 0x3000
}

/// The characters of `s`: `str::chars` gathered by itertools' `Itertools::collect_vec`
/// (which is `Iterator::collect` into a `Vec`).  Trusted, not proved: the contract claims
/// that the vector holds exactly the characters of `s`, in order.
#[verifier::external_body]
pub(crate) fn chars_of(s: &str) -> (chars: Vec<char>)
    ensures
        chars@ == s@,
{
    s.chars().collect_vec()
}

/// `s` without its leading whitespace.
pub open spec fn trim_start(s: Seq<char>) -> Seq<char>
    decreases s.len(),
{
    if s.len() > 0 && is_ws(s[0]) {
        trim_start(s.drop_first())
    } else {
        s
    }
}

/// `s` without its trailing whitespace.
pub open spec fn trim_end(s: Seq<char>) -> Seq<char>
    decreases s.len(),
{
    if s.len() > 0 && is_ws(s.last()) {
        trim_end(s.drop_last())
    } else {
        s
    }
}

/// `s` without its leading and trailing whitespace.
pub open spec fn trim(s: Seq<char>) -> Seq<char> {
    trim_end(trim_start(s))
}

/// The whitespace-separated fields of `s`: appending a non-whitespace character extends the
/// last field when the character before it is not whitespace, and starts a new field
/// otherwise.
pub open spec fn fields(s: Seq<char>) -> Seq<Seq<char>>
    decreases s.len(),
{
    if s.len() == 0 {
        seq![]
    } else {
        let init = fields(s.drop_last());
        let c = s.last();
        if is_ws(c) {
            init
        } else if s.len() >= 2 && !is_ws(s[s.len() - 2]) {
            init.update(init.len() - 1, init.last().push(c))
        } else {
            init.push(seq![c])
        }
    }
}

/// The pieces of `s` between the occurrences of `sep`: appending `sep` starts a new, empty
/// piece and appending any other character extends the last piece.
pub open spec fn split_on(s: Seq<char>, sep: char) -> Seq<Seq<char>>
    decreases s.len(),
{
    if s.len() == 0 {
        seq![seq![]]
    } else {
        let init = split_on(s.drop_last(), sep);
        if s.last() == sep {
            init.push(seq![])
        } else {
            init.update(init.len() - 1, init.last().push(s.last()))
        }
    }
}

proof fn lemma_trim_end_prefix(x: Seq<char>)
    ensures
        trim_end(x).len() <= x.len(),
        trim_end(x) == x.take(trim_end(x).len() as int),
        trim_end(x).len() == 0 || !is_ws(trim_end(x).last()),
    decreases x.len(),
{
    if x.len() > 0 && is_ws(x.last()) {
        lemma_trim_end_prefix(x.drop_last());
        assert(x.drop_last().take(trim_end(x).len() as int) =~= x.take(trim_end(x).len() as int));
    } else {
        assert(x.take(x.len() as int) =~= x);
    }
}

proof fn lemma_trim_start_front(x: Seq<char>)
    ensures
        trim_start(x).len() == 0 || !is_ws(trim_start(x)[0]),
    decreases x.len(),
{
    if x.len() > 0 && is_ws(x[0]) {
        lemma_trim_start_front(x.drop_first());
    }
}

/// Trimming twice is trimming once.
pub proof fn lemma_trim_idempotent(s: Seq<char>)
    ensures
        trim(trim(s)) == trim(s),
{
    let u = trim_start(s);
    let t = trim_end(u);
    lemma_trim_start_front(s);
    lemma_trim_end_prefix(u);
    if t.len() > 0 {
        assert(t[0] == u[0]);
    }
    assert(trim_start(t) == t);
    assert(trim_end(t) == t);
}

/// The bounds of `chars` without its leading and trailing whitespace.
pub fn trim_bounds(chars: &Vec<char>) -> (r: (usize, usize))
    ensures
        r.0 <= r.1 <= chars.len(),
        chars@.subrange(r.0 as int, r.1 as int) == trim(chars@),
{
    let len = chars.len();
    let mut lo: usize = 0;
    assert(chars@.subrange(0, len as int) =~= chars@);
    while lo < len && is_whitespace(chars[lo])
        invariant
            len == chars.len(),
            lo <= len,
            trim_start(chars@.subrange(lo as int, len as int)) == trim_start(chars@),
        decreases len - lo,
    {
        assert(chars@.subrange(lo as int, len as int).drop_first() =~= chars@.subrange(
            lo + 1,
            len as int,
        ));
        lo += 1;
    }
    let mut hi: usize = len;
    while hi > lo && is_whitespace(chars[hi - 1])
        invariant
            len == chars.len(),
            lo <= hi <= len,
            trim_start(chars@) == chars@.subrange(lo as int, len as int),
            trim_end(chars@.subrange(lo as int, hi as int)) == trim(chars@),
        decreases hi - lo,
    {
        assert(chars@.subrange(lo as int, hi as int).drop_last() =~= chars@.subrange(
            lo as int,
            hi - 1,
        ));
        hi -= 1;
    }
    (lo, hi)
}

/// The bounds of the whitespace-separated fields of `chars[lo..hi]`.
pub fn split_fields(chars: &Vec<char>, lo: usize, hi: usize) -> (r: Vec<(usize, usize)>)
    requires
        lo <= hi <= chars.len(),
    ensures
        r.len() == fields(chars@.subrange(lo as int, hi as int)).len(),
        forall|k: int|
            0 <= k < r.len() ==> lo <= (#[trigger] r@[k]).0 <= r@[k].1 <= hi && chars@.subrange(
                r@[k].0 as int,
                r@[k].1 as int,
            ) == fields(chars@.subrange(lo as int, hi as int))[k],
{
    let mut out: Vec<(usize, usize)> = Vec::new();
    let mut in_word = false;
    let mut word_start: usize = lo;
    let mut i: usize = lo;
    while i < hi
        invariant
            lo <= i <= hi <= chars.len(),
            lo <= word_start <= i,
            in_word <==> (i > lo && !is_ws(chars@[i - 1])),
            ({
                let f = fields(chars@.subrange(lo as int, i as int));
                &&& f.len() == out.len() + (if in_word {
                    1int
                } else {
                    0int
                })
                &&& forall|k: int|
                    0 <= k < out.len() ==> lo <= (#[trigger] out@[k]).0 <= out@[k].1 <= i
                        && chars@.subrange(out@[k].0 as int, out@[k].1 as int) == f[k]
                &&& in_word ==> f.last() == chars@.subrange(word_start as int, i as int)
            }),
        decreases hi - i,
    {
        let c = chars[i];
        let ghost s = chars@.subrange(lo as int, i + 1);
        proof {
            assert(s.drop_last() =~= chars@.subrange(lo as int, i as int));
            assert(s.last() == c);
            if i > lo {
                assert(s[s.len() - 2] == chars@[i - 1]);
            }
        }
        if is_whitespace(c) {
            if in_word {
                out.push((word_start, i));
                in_word = false;
            }
        } else if in_word {
            proof {
                assert(chars@.subrange(word_start as int, i + 1) =~= chars@.subrange(
                    word_start as int,
                    i as int,
                ).push(c));
            }
        } else {
            word_start = i;
            in_word = true;
            proof {
                assert(chars@.subrange(word_start as int, i + 1) =~= seq![c]);
            }
        }
        i += 1;
    }
    if in_word {
        out.push((word_start, hi));
    }
    out
}

/// The bounds of the pieces of `chars[lo..hi]` between the occurrences of `sep`.
pub fn split_at_char(chars: &Vec<char>, lo: usize, hi: usize, sep: char) -> (r: Vec<(usize, usize)>)
    requires
        lo <= hi <= chars.len(),
    ensures
        r.len() == split_on(chars@.subrange(lo as int, hi as int), sep).len(),
        forall|k: int|
            0 <= k < r.len() ==> lo <= (#[trigger] r@[k]).0 <= r@[k].1 <= hi && chars@.subrange(
                r@[k].0 as int,
                r@[k].1 as int,
            ) == split_on(chars@.subrange(lo as int, hi as int), sep)[k],
{
    let mut out: Vec<(usize, usize)> = Vec::new();
    let mut piece_start: usize = lo;
    let mut i: usize = lo;
    proof {
        assert(chars@.subrange(lo as int, lo as int) =~= Seq::<char>::empty());
    }
    while i < hi
        invariant
            lo <= i <= hi <= chars.len(),
            lo <= piece_start <= i,
            ({
                let p = split_on(chars@.subrange(lo as int, i as int), sep);
                &&& p.len() == out.len() + 1
                &&& forall|k: int|
                    0 <= k < out.len() ==> lo <= (#[trigger] out@[k]).0 <= out@[k].1 <= i
                        && chars@.subrange(out@[k].0 as int, out@[k].1 as int) == p[k]
                &&& p.last() == chars@.subrange(piece_start as int, i as int)
            }),
        decreases hi - i,
    {
        let c = chars[i];
        let ghost s = chars@.subrange(lo as int, i + 1);
        proof {
            assert(s.drop_last() =~= chars@.subrange(lo as int, i as int));
            assert(s.last() == c);
        }
        if c == sep {
            out.push((piece_start, i));
            piece_start = i + 1;
            proof {
                assert(chars@.subrange(piece_start as int, i + 1) =~= Seq::<char>::empty());
            }
        } else {
            proof {
                assert(chars@.subrange(piece_start as int, i + 1) =~= chars@.subrange(
                    piece_start as int,
                    i as int,
                ).push(c));
            }
        }
        i += 1;
    }
    out.push((piece_start, hi));
    out
}

/// An ASCII decimal digit.
pub open spec fn is_digit(c: char) -> bool {
    '0' <= c <= '9'
}

/// The value of a sequence of decimal digits.
pub open spec fn digits_value(s: Seq<char>) -> int
    decreases s.len(),
{
    if s.len() == 0 {
        0
    } else {
        digits_value(s.drop_last()) * 10 + (s.last() as int - '0' as int)
    }
}

/// Every character of `s` is a decimal digit.
pub open spec fn all_digits(s: Seq<char>) -> bool {
    forall|i: int| 0 <= i < s.len() ==> #[trigger] is_digit(s[i])
}

/// What `str::parse::<u32>` gives: an optional `+` and at least one digit, of a value that
/// fits in a `u32`.
pub open spec fn parse_u32(s: Seq<char>) -> Option<u32> {
    let d = if s.len() > 0 && s[0] == '+' {
        s.drop_first()
    } else {
        s
    };
    if d.len() > 0 && all_digits(d) && digits_value(d) <= u32::MAX {
        Some(digits_value(d) as u32)
    } else {
        None
    }
}

/// What `str::parse::<i64>` gives: an optional `+` or `-` and at least one digit, of a value
/// that fits in an `i64`.
pub open spec fn parse_i64(s: Seq<char>) -> Option<i64> {
    let neg = s.len() > 0 && s[0] == '-';
    let d = if s.len() > 0 && (s[0] == '+' || s[0] == '-') {
        s.drop_first()
    } else {
        s
    };
    let v = if neg {
        -digits_value(d)
    } else {
        digits_value(d)
    };
    if d.len() > 0 && all_digits(d) && i64::MIN <= v <= i64::MAX {
        Some(v as i64)
    } else {
        None
    }
}

/// A prefix of digits is worth no more than the whole.
pub proof fn lemma_digits_prefix(s: Seq<char>, i: int)
    requires
        all_digits(s),
        0 <= i <= s.len(),
    ensures
        0 <= digits_value(s.take(i)) <= digits_value(s),
    decreases s.len(),
{
    if s.len() > 0 {
        assert(is_digit(s.last()));
        assert(all_digits(s.drop_last()));
        if i == s.len() {
            assert(s.take(i) =~= s);
            lemma_digits_prefix(s.drop_last(), i - 1);
        } else {
            lemma_digits_prefix(s.drop_last(), i);
            assert(s.drop_last().take(i) =~= s.take(i));
        }
    }
}

/// The magnitude of the digits `chars[from..hi]` when they are all digits and it does not
/// exceed `limit`; `None` otherwise.
fn digits_magnitude(chars: &Vec<char>, from: usize, hi: usize, limit: u64) -> (r: Option<u64>)
    requires
        from <= hi <= chars.len(),
    ensures
        ({
            let d = chars@.subrange(from as int, hi as int);
            match r {
                Some(v) => all_digits(d) && v == digits_value(d) && v <= limit,
                None => !all_digits(d) || digits_value(d) > limit,
            }
        }),
{
    let ghost d = chars@.subrange(from as int, hi as int);
    let mut acc: u64 = 0;
    let mut i = from;
    assert(d.take(0) =~= Seq::<char>::empty());
    while i < hi
        invariant
            from <= i <= hi <= chars.len(),
            d == chars@.subrange(from as int, hi as int),
            all_digits(d.take(i - from)),
            acc == digits_value(d.take(i - from)),
            acc <= limit,
        decreases hi - i,
    {
        let c = chars[i];
        assert(d.take(i - from + 1).drop_last() =~= d.take(i - from));
        assert(d.take(i - from + 1).last() == c);
        if !('0' <= c && c <= '9') {
            assert(!is_digit(d[i - from]));
            return None;
        }
        let digit = (c as u32 - '0' as u32) as u64;
        let next = acc as u128 * 10 + digit as u128;
        if next > limit as u128 {
            proof {
                if all_digits(d) {
                    lemma_digits_prefix(d, i - from + 1);
                }
            }
            return None;
        }
        acc = next as u64;
        proof {
            assert forall|k: int| 0 <= k < i - from + 1 implies #[trigger] is_digit(
                d.take(i - from + 1)[k],
            ) by {
                if k < i - from {
                    assert(d.take(i - from + 1)[k] == d.take(i - from)[k]);
                }
            }
        }
        i += 1;
    }
    assert(d.take(hi - from) =~= d);
    Some(acc)
}

/// Parses `chars[lo..hi]` as `str::parse::<u32>` does.
pub fn parse_u32_at(chars: &Vec<char>, lo: usize, hi: usize) -> (r: Option<u32>)
    requires
        lo <= hi <= chars.len(),
    ensures
        r == parse_u32(chars@.subrange(lo as int, hi as int)),
{
    let ghost s = chars@.subrange(lo as int, hi as int);
    let mut from = lo;
    if from < hi && chars[from] == '+' {
        from += 1;
    }
    assert(chars@.subrange(from as int, hi as int) =~= (if s.len() > 0 && s[0] == '+' {
        s.drop_first()
    } else {
        s
    }));
    if from == hi {
        return None;
    }
    match digits_magnitude(chars, from, hi, 0xffff_ffff) {
        Some(v) => Some(v as u32),
        None => None,
    }
}

/// Parses `chars[lo..hi]` as `str::parse::<i64>` does.
pub fn parse_i64_at(chars: &Vec<char>, lo: usize, hi: usize) -> (r: Option<i64>)
    requires
        lo <= hi <= chars.len(),
    ensures
        r == parse_i64(chars@.subrange(lo as int, hi as int)),
{
    let ghost s = chars@.subrange(lo as int, hi as int);
    let mut from = lo;
    let neg = lo < hi && chars[lo] == '-';
    if lo < hi && (chars[lo] == '+' || chars[lo] == '-') {
        from += 1;
    }
    assert(chars@.subrange(from as int, hi as int) =~= (if s.len() > 0 && (s[0] == '+' || s[0]
        == '-') {
        s.drop_first()
    } else {
        s
    }));
    if from == hi {
        return None;
    }
    let limit: u64 = if neg {
        0x8000_0000_0000_0000
    } else {
        0x7fff_ffff_ffff_ffff
    };
    match digits_magnitude(chars, from, hi, limit) {
        Some(v) => {
            if neg {
                Some((0 - v as i128) as i64)
            } else {
                Some(v as i64)
            }
        },
        None => None,
    }
}

/// The first character of `s` that is neither an ASCII letter or digit nor `_`.
pub open spec fn first_invalid_name_char(s: Seq<char>) -> Option<char>
    decreases s.len(),
{
    if s.len() == 0 {
        None
    } else if !is_name_char(s[0]) {
        Some(s[0])
    } else {
        first_invalid_name_char(s.drop_first())
    }
}

/// An ASCII letter or digit, or `_`.
pub open spec fn is_name_char(c: char) -> bool {
    ('a' <= c <= 'z') || ('A' <= c <= 'Z') || ('0' <= c <= '9') || c == '_'
}

/// Finds the first character of `chars[lo..hi]` that may not stand in a room name.
pub fn find_invalid_name_char(chars: &Vec<char>, lo: usize, hi: usize) -> (r: Option<char>)
    requires
        lo <= hi <= chars.len(),
    ensures
        r == first_invalid_name_char(chars@.subrange(lo as int, hi as int)),
{
    let mut i = lo;
    while i < hi
        invariant
            lo <= i <= hi <= chars.len(),
            first_invalid_name_char(chars@.subrange(i as int, hi as int))
                == first_invalid_name_char(chars@.subrange(lo as int, hi as int)),
        decreases hi - i,
    {
        let c = chars[i];
        assert(chars@.subrange(i as int, hi as int)[0] == c);
        assert(chars@.subrange(i as int, hi as int).drop_first() =~= chars@.subrange(
            i + 1,
            hi as int,
        ));
        let valid = ('a' <= c && c <= 'z') || ('A' <= c && c <= 'Z') || ('0' <= c && c <= '9')
            || c == '_';
        if !valid {
            return Some(c);
        }
        i += 1;
    }
    None
}

/// Tells whether `chars[lo..hi]` spells `word`.
pub fn range_eq(chars: &Vec<char>, lo: usize, hi: usize, word: &Vec<char>) -> (r: bool)
    requires
        lo <= hi <= chars.len(),
    ensures
        r == (chars@.subrange(lo as int, hi as int) == word@),
{
    if hi - lo != word.len() {
        return false;
    }
    let mut k: usize = 0;
    while k < word.len()
        invariant
            hi - lo == word.len(),
            lo <= hi <= chars.len(),
            k <= word.len(),
            forall|i: int| 0 <= i < k ==> chars@[lo + i] == word@[i],
        decreases word.len() - k,
    {
        if chars[lo + k] != word[k] {
            assert(chars@.subrange(lo as int, hi as int)[k as int] != word@[k as int]);
            return false;
        }
        k += 1;
    }
    assert(chars@.subrange(lo as int, hi as int) =~= word@);
    true
}

/// `s` always splits into at least one piece.
pub proof fn lemma_split_on_len(s: Seq<char>, sep: char)
    ensures
        split_on(s, sep).len() >= 1,
    decreases s.len(),
{
    if s.len() > 0 {
        lemma_split_on_len(s.drop_last(), sep);
    }
}

/// When every character of every piece satisfies `ok`, every character of `s` is `sep` or
/// satisfies `ok`.
pub proof fn lemma_split_on_pieces(s: Seq<char>, sep: char, ok: spec_fn(char) -> bool)
    requires
        forall|j: int, k: int|
            0 <= j < split_on(s, sep).len() && 0 <= k < split_on(s, sep)[j].len() ==> ok(
                #[trigger] split_on(s, sep)[j][k],
            ),
    ensures
        forall|i: int| 0 <= i < s.len() ==> s[i] == sep || ok(#[trigger] s[i]),
    decreases s.len(),
{
    if s.len() > 0 {
        let init = s.drop_last();
        let pi = split_on(init, sep);
        let ps = split_on(s, sep);
        lemma_split_on_len(init, sep);
        if s.last() == sep {
            assert forall|j: int, k: int| 0 <= j < pi.len() && 0 <= k < pi[j].len() implies ok(
                #[trigger] pi[j][k],
            ) by {
                assert(ps[j] == pi[j]);
                assert(ok(ps[j][k]));
            }
        } else {
            let l = pi.len() - 1;
            assert(ps[l] == pi[l].push(s.last()));
            assert forall|j: int, k: int| 0 <= j < pi.len() && 0 <= k < pi[j].len() implies ok(
                #[trigger] pi[j][k],
            ) by {
                if j == l {
                    assert(ps[l][k] == pi[l][k]);
                    assert(ok(ps[l][k]));
                } else {
                    assert(ps[j] == pi[j]);
                    assert(ok(ps[j][k]));
                }
            }
            assert(ok(ps[l][pi[l].len() as int]));
        }
        lemma_split_on_pieces(init, sep, ok);
        assert forall|i: int| 0 <= i < s.len() implies s[i] == sep || ok(#[trigger] s[i]) by {
            if i < init.len() {
                assert(s[i] == init[i]);
            }
        }
    }
}

/// A line without whitespace has at most one field.
pub proof fn lemma_fields_without_ws(s: Seq<char>)
    requires
        forall|i: int| 0 <= i < s.len() ==> !is_ws(#[trigger] s[i]),
    ensures
        fields(s).len() <= 1,
    decreases s.len(),
{
    if s.len() > 0 {
        let init = s.drop_last();
        assert forall|i: int| 0 <= i < init.len() implies !is_ws(#[trigger] init[i]) by {
            assert(init[i] == s[i]);
        }
        lemma_fields_without_ws(init);
        assert(!is_ws(s[s.len() - 1]));
        if s.len() >= 2 {
            assert(!is_ws(s[s.len() - 2]));
            assert(fields(init).len() >= 1) by {
                lemma_fields_nonempty(init);
            }
        }
    }
}

/// A line with a character that is not whitespace has a field.
proof fn lemma_fields_nonempty(s: Seq<char>)
    requires
        s.len() > 0,
        !is_ws(s.last()),
    ensures
        fields(s).len() >= 1,
    decreases s.len(),
{
    let init = s.drop_last();
    if s.len() >= 2 && !is_ws(s[s.len() - 2]) {
        lemma_fields_nonempty(init);
    }
}

/// A name accepted by [`first_invalid_name_char`] is made of name characters.
pub proof fn lemma_name_chars(s: Seq<char>)
    requires
        first_invalid_name_char(s) is None,
    ensures
        forall|k: int| 0 <= k < s.len() ==> is_name_char(#[trigger] s[k]),
    decreases s.len(),
{
    if s.len() > 0 {
        lemma_name_chars(s.drop_first());
        assert forall|k: int| 0 <= k < s.len() implies is_name_char(#[trigger] s[k]) by {
            if k > 0 {
                assert(s[k] == s.drop_first()[k - 1]);
            }
        }
    }
}

/// Every field is non-empty.
pub proof fn lemma_fields_nonempty_pieces(s: Seq<char>)
    ensures
        forall|k: int| 0 <= k < fields(s).len() ==> #[trigger] fields(s)[k].len() > 0,
    decreases s.len(),
{
    if s.len() > 0 {
        let init = fields(s.drop_last());
        lemma_fields_nonempty_pieces(s.drop_last());
        let c = s.last();
        if !is_ws(c) && s.len() >= 2 && !is_ws(s[s.len() - 2]) {
            lemma_fields_nonempty(s.drop_last());
            assert(s.drop_last().last() == s[s.len() - 2]);
            let f = fields(s);
            assert(f == init.update(init.len() - 1, init.last().push(c)));
            assert forall|k: int| 0 <= k < f.len() implies #[trigger] f[k].len() > 0 by {
                if k < init.len() - 1 {
                    assert(f[k] == init[k]);
                }
            }
        }
    }
}

/// A string of name characters is accepted by [`first_invalid_name_char`].
pub proof fn lemma_name_chars_accepted(s: Seq<char>)
    requires
        forall|k: int| 0 <= k < s.len() ==> is_name_char(#[trigger] s[k]),
    ensures
        first_invalid_name_char(s) is None,
    decreases s.len(),
{
    if s.len() > 0 {
        assert(is_name_char(s[0]));
        assert forall|k: int| 0 <= k < s.drop_first().len() implies is_name_char(#[trigger] s.drop_first()[k]) by {
            assert(s.drop_first()[k] == s[k + 1]);
        }
        lemma_name_chars_accepted(s.drop_first());
    }
}

/// A string without `sep` is one piece.
pub proof fn lemma_split_on_whole(x: Seq<char>, sep: char)
    requires
        forall|k: int| 0 <= k < x.len() ==> #[trigger] x[k] != sep,
    ensures
        split_on(x, sep) == seq![x],
    decreases x.len(),
{
    if x.len() > 0 {
        assert forall|k: int| 0 <= k < x.drop_last().len() implies #[trigger] x.drop_last()[k] != sep by {
            assert(x.drop_last()[k] == x[k]);
        }
        lemma_split_on_whole(x.drop_last(), sep);
        assert(x[x.len() - 1] != sep);
        assert(x.drop_last().push(x.last()) =~= x);
        assert(seq![x.drop_last()].update(0, x.drop_last().push(x.last())) =~= seq![x]);
    } else {
        assert(x =~= Seq::<char>::empty());
    }
}

/// Two strings without `sep`, joined by `sep`, split into those two pieces.
pub proof fn lemma_split_on_pair(x: Seq<char>, y: Seq<char>, sep: char)
    requires
        forall|k: int| 0 <= k < x.len() ==> #[trigger] x[k] != sep,
        forall|k: int| 0 <= k < y.len() ==> #[trigger] y[k] != sep,
    ensures
        split_on(x + seq![sep] + y, sep) == seq![x, y],
    decreases y.len(),
{
    let s = x + seq![sep] + y;
    if y.len() == 0 {
        lemma_split_on_whole(x, sep);
        assert(s.drop_last() =~= x);
        assert(s.last() == sep);
        assert(y =~= Seq::<char>::empty());
        assert(seq![x].push(Seq::<char>::empty()) =~= seq![x, y]);
    } else {
        let y0 = y.drop_last();
        assert forall|k: int| 0 <= k < y0.len() implies #[trigger] y0[k] != sep by {
            assert(y0[k] == y[k]);
        }
        lemma_split_on_pair(x, y0, sep);
        assert(s.drop_last() =~= x + seq![sep] + y0);
        assert(s.last() == y.last());
        assert(y[y.len() - 1] != sep);
        assert(y0.push(y.last()) =~= y);
        assert(seq![x, y0].update(1, y0.push(y.last())) =~= seq![x, y]);
    }
}

} // verus!
