//! Character-level string helpers with their mathematical specifications:
//! whitespace trimming, decimal numbers, joining and substring replacement.

use vstd::prelude::*;

verus! {

/// `String::push` appends one character.
pub assume_specification[ std::string::String::push ](s: &mut std::string::String, ch: char)
    ensures
        final(s)@ == old(s)@.push(ch),
;

/// The Unicode `White_Space` property.
pub open spec fn is_white_space(c: char) -> bool {
    let u = c as u32;
    ||| 0x09 <= u <= 0x0D
    ||| u == 0x20
    ||| u == 0x85
    ||| u == 0xA0
    ||| u == 0x1680
    ||| 0x2000 <= u <= 0x200A
    ||| u == 0x2028
    ||| u == 0x2029
    ||| u == 0x202F
    ||| u == 0x205F
    ||| u == 0x3000
}

/// Whether `c` is whitespace: a character with the Unicode `White_Space`
/// property, as `char::is_whitespace` decides.
pub fn is_white(c: char) -> (res: bool)
    ensures
        res == is_white_space(c),
{
    let u = c as u32;
    (0x09 <= u && u <= 0x0D) || u == 0x20 || u == 0x85 || u == 0xA0 || u == 0x1680 || (0x2000
        <= u && u <= 0x200A) || u == 0x2028 || u == 0x2029 || u == 0x202F || u == 0x205F || u
        == 0x3000
}

/// `s` with its trailing whitespace removed.
pub open spec fn trim_end_spec(s: Seq<char>) -> Seq<char>
    decreases s.len(),
{
    if s.len() > 0 && is_white_space(s.last()) {
        trim_end_spec(s.drop_last())
    } else {
        s
    }
}

/// `s` with its leading whitespace removed.
pub open spec fn trim_start_spec(s: Seq<char>) -> Seq<char>
    decreases s.len(),
{
    if s.len() > 0 && is_white_space(s.first()) {
        trim_start_spec(s.drop_first())
    } else {
        s
    }
}

/// `s` with leading and trailing whitespace removed.
pub open spec fn trim_spec(s: Seq<char>) -> Seq<char> {
    trim_start_spec(trim_end_spec(s))
}

/// The characters of a string slice, in order.
pub fn chars_of(s: &str) -> (v: Vec<char>)
    ensures
        v@ == s@,
{
    let mut v: Vec<char> = Vec::new();
    for c in it: s.chars()
        invariant
            it.seq() == s@,
            v@ == it.seq().take(it.index() as int),
    {
        v.push(c);
    }
    v
}

/// A string made of the characters `v[lo..hi]`.
pub fn string_from_range(v: &Vec<char>, lo: usize, hi: usize) -> (res: String)
    requires
        lo <= hi <= v.len(),
    ensures
        res@ == v@.subrange(lo as int, hi as int),
{
    let mut res = String::new();
    let mut i = lo;
    while i < hi
        invariant
            lo <= i <= hi <= v.len(),
            res@ == v@.subrange(lo as int, i as int),
        decreases hi - i,
    {
        res.push(v[i]);
        i = i + 1;
        assert(res@ =~= v@.subrange(lo as int, i as int));
    }
    res
}

/// Whether two character vectors are equal.
pub fn chars_eq(a: &Vec<char>, b: &Vec<char>) -> (res: bool)
    ensures
        res == (a@ == b@),
{
    if a.len() != b.len() {
        return false;
    }
    let mut i: usize = 0;
    while i < a.len()
        invariant
            a.len() == b.len(),
            i <= a.len(),
            forall|j: int| 0 <= j < i ==> a@[j] == b@[j],
        decreases a.len() - i,
    {
        if a[i] != b[i] {
            return false;
        }
        i = i + 1;
    }
    assert(a@ =~= b@);
    true
}

/// Whether two strings hold the same text.
pub fn same_text(a: &str, b: &str) -> (res: bool)
    ensures
        res == (a@ == b@),
{
    chars_eq(&chars_of(a), &chars_of(b))
}

/// An owned copy of a string slice.
pub fn owned(s: &str) -> (res: String)
    ensures
        res@ == s@,
{
    s.to_owned()
}

/// `a` followed by `b`.
pub fn concat(a: &str, b: &str) -> (res: String)
    ensures
        res@ == a@ + b@,
{
    let mut res = a.to_owned();
    res.append(b);
    res
}

/// Number of trailing whitespace characters that `trim_end` drops from `v[..hi]`.
pub fn trimmed_end(v: &Vec<char>, hi: usize) -> (j: usize)
    requires
        hi <= v.len(),
    ensures
        j <= hi,
        trim_end_spec(v@.take(hi as int)) == v@.take(j as int),
{
    let mut j = hi;
    while j > 0 && is_white(v[j - 1])
        invariant
            j <= hi <= v.len(),
            trim_end_spec(v@.take(hi as int)) == trim_end_spec(v@.take(j as int)),
        decreases j,
    {
        assert(v@.take(j as int).drop_last() =~= v@.take(j - 1));
        j = j - 1;
    }
    j
}

/// Index of the first character of `v[lo..hi]` that `trim_start` keeps.
fn trimmed_start(v: &Vec<char>, lo: usize, hi: usize) -> (i: usize)
    requires
        lo <= hi <= v.len(),
    ensures
        lo <= i <= hi,
        trim_start_spec(v@.subrange(lo as int, hi as int)) == v@.subrange(i as int, hi as int),
{
    let mut i = lo;
    while i < hi && is_white(v[i])
        invariant
            lo <= i <= hi <= v.len(),
            trim_start_spec(v@.subrange(lo as int, hi as int)) == trim_start_spec(
                v@.subrange(i as int, hi as int),
            ),
        decreases hi - i,
    {
        assert(v@.subrange(i as int, hi as int).drop_first() =~= v@.subrange(i + 1, hi as int));
        i = i + 1;
    }
    i
}

/// `s` without trailing whitespace (`str::trim_end`).
pub fn trim_end(s: &str) -> (res: String)
    ensures
        res@ == trim_end_spec(s@),
{
    let v = chars_of(s);
    let j = trimmed_end(&v, v.len());
    assert(v@.take(v.len() as int) =~= v@);
    assert(v@.take(j as int) =~= v@.subrange(0, j as int));
    string_from_range(&v, 0, j)
}

/// `s` without leading and trailing whitespace (`str::trim`).
pub fn trim(s: &str) -> (res: String)
    ensures
        res@ == trim_spec(s@),
{
    let v = chars_of(s);
    let j = trimmed_end(&v, v.len());
    assert(v@.take(v.len() as int) =~= v@);
    assert(v@.take(j as int) =~= v@.subrange(0, j as int));
    let i = trimmed_start(&v, 0, j);
    string_from_range(&v, i, j)
}

/// Whether a string holds nothing but whitespace (`s.trim().is_empty()`).
pub fn is_blank(s: &str) -> (res: bool)
    ensures
        res == (trim_spec(s@).len() == 0),
{
    let t = trim(s);
    t.as_str().is_empty()
}

/// The character of a decimal digit.
pub open spec fn digit_char(d: int) -> char {
    ((d + 48) as u8) as char
}

/// Whether `c` is one of the ASCII digits `0` to `9`.
pub open spec fn is_digit(c: char) -> bool {
    '0' <= c <= '9'
}

/// The value of an ASCII digit.
pub open spec fn digit_value(c: char) -> int {
    (c as u32) - 48
}

/// The decimal representation of `n`, without sign or leading zeros.
pub open spec fn decimal(n: nat) -> Seq<char>
    decreases n,
{
    if n < 10 {
        seq![digit_char(n as int)]
    } else {
        decimal(n / 10).push(digit_char((n % 10) as int))
    }
}

/// The number that a string of digits denotes.
pub open spec fn digits_value(s: Seq<char>) -> int
    decreases s.len(),
{
    if s.len() == 0 {
        0
    } else {
        digits_value(s.drop_last()) * 10 + digit_value(s.last())
    }
}

/// The digits of a decimal number, with an optional leading `+` removed.
pub open spec fn unsigned_digits(s: Seq<char>) -> Seq<char> {
    if s.len() > 0 && s[0] == '+' {
        s.drop_first()
    } else {
        s
    }
}

/// What `str::parse::<u64>` gives: an optional `+`, then one or more ASCII
/// digits whose value fits in `u64`.
pub open spec fn parse_u64_spec(s: Seq<char>) -> Option<u64> {
    let d = unsigned_digits(s);
    if d.len() > 0 && (forall|i: int| 0 <= i < d.len() ==> is_digit(#[trigger] d[i]))
        && digits_value(d) <= u64::MAX {
        Some(digits_value(d) as u64)
    } else {
        None
    }
}

/// The decimal text of a number (`u64::to_string`).
pub fn u64_to_decimal(n: u64) -> (res: String)
    ensures
        res@ == decimal(n as nat),
    decreases n,
{
    let d: u8 = (n % 10) as u8;
    let c: char = (d + 48u8) as char;
    if n < 10 {
        let mut res = String::new();
        res.push(c);
        assert(res@ =~= decimal(n as nat));
        res
    } else {
        let mut res = u64_to_decimal(n / 10);
        res.push(c);
        res
    }
}

proof fn lemma_digits_value_bounds(s: Seq<char>)
    requires
        forall|i: int| 0 <= i < s.len() ==> is_digit(#[trigger] s[i]),
    ensures
        digits_value(s) >= 0,
    decreases s.len(),
{
    if s.len() > 0 {
        lemma_digits_value_bounds(s.drop_last());
    }
}

/// A string of digits is at least as large as any of its prefixes.
proof fn lemma_digits_value_prefix(s: Seq<char>, k: int)
    requires
        0 <= k <= s.len(),
        forall|i: int| 0 <= i < s.len() ==> is_digit(#[trigger] s[i]),
    ensures
        digits_value(s.take(k)) <= digits_value(s),
    decreases s.len() - k,
{
    if k < s.len() {
        lemma_digits_value_prefix(s, k + 1);
        assert(s.take(k + 1).drop_last() =~= s.take(k));
        assert(forall|i: int| 0 <= i < s.take(k).len() ==> is_digit(#[trigger] s.take(k)[i]));
        lemma_digits_value_bounds(s.take(k));
    } else {
        assert(s.take(k) =~= s);
    }
}

/// `str::parse::<u64>`: the value of an optionally `+`-prefixed decimal
/// number, or `None` when the text is not one or does not fit.
pub fn parse_u64(s: &str) -> (res: Option<u64>)
    ensures
        res == parse_u64_spec(s@),
{
    let v = chars_of(s);
    let start: usize = if v.len() > 0 && v[0] == '+' { 1 } else { 0 };
    let ghost d = unsigned_digits(s@);
    assert(d =~= v@.subrange(start as int, v.len() as int));
    if start == v.len() {
        return None;
    }
    let mut acc: u64 = 0;
    let mut i = start;
    while i < v.len()
        invariant
            start <= i <= v.len(),
            d == unsigned_digits(s@),
            d == v@.subrange(start as int, v.len() as int),
            forall|j: int| 0 <= j < i - start ==> is_digit(#[trigger] d[j]),
            acc as int == digits_value(d.take(i - start)),
        decreases v.len() - i,
    {
        let c = v[i];
        if !('0' <= c && c <= '9') {
            assert(d[i - start] == c);
            assert(!is_digit(d[i - start]));
            return None;
        }
        let digit: u64 = ((c as u32) - 48) as u64;
        assert(d.take(i - start + 1).drop_last() =~= d.take(i - start));
        assert(d.take(i - start + 1).last() == c);
        assert(digit as int == digit_value(c));
        assert(digits_value(d.take(i - start + 1)) == acc * 10 + digit);
        if acc > (u64::MAX - digit) / 10 {
            proof {
                assert(acc * 10 + digit > u64::MAX) by (nonlinear_arith)
                    requires
                        acc > (u64::MAX - digit) / 10,
                        digit <= 9,
                ;
                if forall|j: int| 0 <= j < d.len() ==> is_digit(#[trigger] d[j]) {
                    lemma_digits_value_prefix(d, i - start + 1);
                }
            }
            return None;
        }
        acc = acc * 10 + digit;
        i = i + 1;
    }
    assert(d.take(d.len() as int) =~= d);
    Some(acc)
}

/// The decimal text of a number reads back as that number.
pub proof fn lemma_decimal_parses(n: u64)
    ensures
        parse_u64_spec(decimal(n as nat)) == Some(n),
{
    lemma_decimal_digits(n as nat);
}

proof fn lemma_decimal_digits(n: nat)
    ensures
        decimal(n).len() > 0,
        decimal(n)[0] != '+',
        forall|i: int| 0 <= i < decimal(n).len() ==> is_digit(#[trigger] decimal(n)[i]),
        digits_value(decimal(n)) == n,
    decreases n,
{
    if n < 10 {
        assert(digits_value(decimal(n).drop_last()) == 0);
    } else {
        lemma_decimal_digits(n / 10);
        let s = decimal(n);
        assert(s.drop_last() =~= decimal(n / 10));
        assert(n == (n / 10) * 10 + n % 10) by (nonlinear_arith);
        assert forall|i: int| 0 <= i < s.len() implies is_digit(#[trigger] s[i]) by {
            if i < s.len() - 1 {
                assert(s[i] == decimal(n / 10)[i]);
            }
        };
    }
}

/// `parts` joined with `sep` between consecutive parts.
pub open spec fn join_spec(parts: Seq<Seq<char>>, sep: Seq<char>) -> Seq<char>
    decreases parts.len(),
{
    if parts.len() == 0 {
        seq![]
    } else if parts.len() == 1 {
        parts[0]
    } else {
        join_spec(parts.drop_last(), sep) + sep + parts.last()
    }
}

/// `parts.join(sep)`.
pub fn join(parts: &Vec<String>, sep: &str) -> (res: String)
    ensures
        res@ == join_spec(parts@.map_values(|p: String| p@), sep@),
{
    let ghost views = parts@.map_values(|p: String| p@);
    let mut res = String::new();
    let mut i: usize = 0;
    while i < parts.len()
        invariant
            i <= parts.len(),
            views == parts@.map_values(|p: String| p@),
            res@ == join_spec(views.take(i as int), sep@),
        decreases parts.len() - i,
    {
        assert(views.take(i + 1).drop_last() =~= views.take(i as int));
        if i != 0 {
            res.append(sep);
        }
        res.append(parts[i].as_str());
        i = i + 1;
    }
    assert(views.take(parts.len() as int) =~= views);
    res
}

/// `s` with every non-overlapping occurrence of `pattern`, searched from the
/// left, replaced by `with`.
pub open spec fn replace_spec(s: Seq<char>, pattern: Seq<char>, with: Seq<char>) -> Seq<char>
    decreases s.len(),
{
    if s.len() == 0 {
        seq![]
    } else if 0 < pattern.len() <= s.len() && s.take(pattern.len() as int) == pattern {
        with + replace_spec(s.skip(pattern.len() as int), pattern, with)
    } else {
        seq![s[0]] + replace_spec(s.skip(1), pattern, with)
    }
}

/// Text without the pattern's first character passes through a
/// replacement unchanged.
pub proof fn lemma_replace_keeps_prefix(u: Seq<char>, t: Seq<char>, pattern: Seq<char>, with: Seq<char>)
    requires
        pattern.len() > 0,
        forall|i: int| 0 <= i < u.len() ==> u[i] != pattern[0],
    ensures
        replace_spec(u + t, pattern, with) == u + replace_spec(t, pattern, with),
    decreases u.len(),
{
    if u.len() > 0 {
        let x = u + t;
        if pattern.len() <= x.len() {
            assert(x.take(pattern.len() as int)[0] != pattern[0]);
        }
        assert(x.skip(1) =~= u.skip(1) + t);
        lemma_replace_keeps_prefix(u.skip(1), t, pattern, with);
        assert(seq![u[0]] + (u.skip(1) + replace_spec(t, pattern, with)) =~= u + replace_spec(
            t,
            pattern,
            with,
        ));
    } else {
        assert(u + t =~= t);
        assert(u + replace_spec(t, pattern, with) =~= replace_spec(t, pattern, with));
    }
}

/// A text that starts with the pattern has it replaced there.
pub proof fn lemma_replace_at_pattern(t: Seq<char>, pattern: Seq<char>, with: Seq<char>)
    requires
        pattern.len() > 0,
    ensures
        replace_spec(pattern + t, pattern, with) == with + replace_spec(t, pattern, with),
{
    let x = pattern + t;
    assert(x.take(pattern.len() as int) =~= pattern);
    assert(x.skip(pattern.len() as int) =~= t);
}

/// A text that differs from the pattern at position `d` keeps its first
/// character.
pub proof fn lemma_replace_mismatch(x: Seq<char>, pattern: Seq<char>, with: Seq<char>, d: int)
    requires
        pattern.len() > 0,
        0 <= d < pattern.len(),
        d < x.len(),
        x[d] != pattern[d],
    ensures
        replace_spec(x, pattern, with) == seq![x[0]] + replace_spec(x.skip(1), pattern, with),
{
    if pattern.len() <= x.len() {
        assert(x.take(pattern.len() as int)[d] != pattern[d]);
    }
}

/// Whether `pattern` occurs in `v` at position `at`.
fn occurs_at(v: &Vec<char>, at: usize, pattern: &Vec<char>) -> (res: bool)
    requires
        at <= v.len(),
    ensures
        res == (pattern.len() <= v.len() - at && v@.subrange(
            at as int,
            at + pattern.len(),
        ) == pattern@),
{
    if pattern.len() > v.len() - at {
        return false;
    }
    let mut k: usize = 0;
    while k < pattern.len()
        invariant
            pattern.len() <= v.len() - at,
            k <= pattern.len(),
            forall|j: int| 0 <= j < k ==> v@[at + j] == pattern@[j],
        decreases pattern.len() - k,
    {
        if v[at + k] != pattern[k] {
            assert(v@.subrange(at as int, at + pattern.len())[k as int] != pattern@[k as int]);
            return false;
        }
        k = k + 1;
    }
    assert(v@.subrange(at as int, at + pattern.len()) =~= pattern@);
    true
}

/// `str::replace`: every occurrence of a non-empty `pattern` replaced by `with`.
pub fn replace_all(s: &str, pattern: &str, with: &str) -> (res: String)
    requires
        pattern@.len() > 0,
    ensures
        res@ == replace_spec(s@, pattern@, with@),
{
    let v = chars_of(s);
    let p = chars_of(pattern);
    let mut res = String::new();
    let mut i: usize = 0;
    assert(v@.skip(0) =~= v@);
    while i < v.len()
        invariant
            i <= v.len(),
            v@ == s@,
            p@ == pattern@,
            p@.len() > 0,
            res@ + replace_spec(v@.skip(i as int), p@, with@) == replace_spec(s@, pattern@, with@),
        decreases v.len() - i,
    {
        let ghost rest = v@.skip(i as int);
        if occurs_at(&v, i, &p) {
            assert(rest.take(p@.len() as int) =~= v@.subrange(i as int, i + p.len()));
            assert(rest.skip(p@.len() as int) =~= v@.skip(i + p.len()));
            let ghost before = res@;
            res.append(with);
            assert(res@ + replace_spec(v@.skip(i + p.len()), p@, with@) =~= before + (with@
                + replace_spec(v@.skip(i + p.len()), p@, with@)));
            i = i + p.len();
        } else {
            assert(rest.skip(1) =~= v@.skip(i + 1));
            assert(rest[0] == v@[i as int]);
            proof {
                if p@.len() <= rest.len() {
                    assert(rest.take(p@.len() as int) =~= v@.subrange(i as int, i + p.len()));
                }
            }
            res.push(v[i]);
            i = i + 1;
        }
    }
    res
}

/// Lexicographic order of texts by code point (the order of `str`).
pub open spec fn text_le(a: Seq<char>, b: Seq<char>) -> bool
    decreases a.len(),
{
    if a.len() == 0 {
        true
    } else if b.len() == 0 {
        false
    } else if a[0] != b[0] {
        a[0] < b[0]
    } else {
        text_le(a.drop_first(), b.drop_first())
    }
}

/// Any two texts are ordered one way or the other.
pub proof fn lemma_text_le_total(a: Seq<char>, b: Seq<char>)
    ensures
        text_le(a, b) || text_le(b, a),
    decreases a.len(),
{
    if a.len() > 0 && b.len() > 0 && a[0] == b[0] {
        lemma_text_le_total(a.drop_first(), b.drop_first());
    }
}

/// The order of texts is transitive.
pub proof fn lemma_text_le_trans(a: Seq<char>, b: Seq<char>, c: Seq<char>)
    requires
        text_le(a, b),
        text_le(b, c),
    ensures
        text_le(a, c),
    decreases a.len(),
{
    if a.len() > 0 && b.len() > 0 && c.len() > 0 && a[0] == b[0] && b[0] == c[0] {
        lemma_text_le_trans(a.drop_first(), b.drop_first(), c.drop_first());
    }
}

/// Whether `a` comes no later than `b` in the order of texts.
pub fn text_at_most(a: &str, b: &str) -> (res: bool)
    ensures
        res == text_le(a@, b@),
{
    let x = chars_of(a);
    let y = chars_of(b);
    let mut i: usize = 0;
    assert(x@.skip(0) =~= x@);
    assert(y@.skip(0) =~= y@);
    while i < x.len() && i < y.len() && x[i] == y[i]
        invariant
            i <= x.len(),
            i <= y.len(),
            text_le(a@, b@) == text_le(x@.skip(i as int), y@.skip(i as int)),
            x@ == a@,
            y@ == b@,
        decreases x.len() - i,
    {
        assert(x@.skip(i as int).drop_first() =~= x@.skip(i + 1));
        assert(y@.skip(i as int).drop_first() =~= y@.skip(i + 1));
        i = i + 1;
    }
    if i == x.len() {
        true
    } else if i == y.len() {
        false
    } else {
        x[i] < y[i]
    }
}

/// Whether texts are in order.
pub open spec fn texts_sorted(s: Seq<Seq<char>>) -> bool {
    forall|i: int, j: int| 0 <= i < j < s.len() ==> text_le(#[trigger] s[i], #[trigger] s[j])
}

/// The texts of strings.
pub open spec fn texts_of(v: Seq<String>) -> Seq<Seq<char>> {
    v.map_values(|s: String| s@)
}

/// Strings in the order of their texts (`Vec::sort` on strings).
pub fn sort_texts(items: Vec<String>) -> (res: Vec<String>)
    ensures
        texts_sorted(texts_of(res@)),
        texts_of(res@).to_multiset() == texts_of(items@).to_multiset(),
{
    broadcast use vstd::seq_lib::group_to_multiset_ensures;
    let mut out: Vec<String> = Vec::new();
    let mut k: usize = 0;
    while k < items.len()
        invariant
            k <= items.len(),
            texts_sorted(texts_of(out@)),
            texts_of(out@).to_multiset() == texts_of(items@.take(k as int)).to_multiset(),
        decreases items.len() - k,
    {
        let x = items[k].clone();
        let mut j: usize = 0;
        while j < out.len() && text_at_most(out[j].as_str(), x.as_str())
            invariant
                j <= out.len(),
                forall|m: int| 0 <= m < j ==> text_le(#[trigger] out@[m]@, x@),
            decreases out.len() - j,
        {
            j = j + 1;
        }
        let ghost before = out@;
        proof {
            if j < out.len() {
                lemma_text_le_total(out@[j as int]@, x@);
            }
        }
        out.insert(j as usize, x);
        proof {
            let t = texts_of(out@);
            let tb = texts_of(before);
            assert(t.len() == tb.len() + 1);
            assert(forall|m: int| 0 <= m < j ==> #[trigger] t[m] == tb[m]);
            assert(forall|m: int| j < m < t.len() ==> #[trigger] t[m] == tb[m - 1]);
            assert(t[j as int] == x@);
            assert forall|a: int, b: int| 0 <= a < b < t.len() implies text_le(
                #[trigger] t[a],
                #[trigger] t[b],
            ) by {
                if b < j {
                    assert(text_le(tb[a], tb[b]));
                } else if b == j {
                    assert(text_le(before[a]@, x@));
                } else if a < j {
                    assert(text_le(tb[a], tb[b - 1]));
                } else if a == j {
                    assert(!text_le(before[j as int]@, x@));
                    assert(text_le(x@, tb[j as int]));
                    if b - 1 > j {
                        assert(text_le(tb[j as int], tb[b - 1]));
                        lemma_text_le_trans(x@, tb[j as int], tb[b - 1]);
                    }
                } else {
                    assert(text_le(tb[a - 1], tb[b - 1]));
                }
            };
            assert(t.remove(j as int) =~= tb);
            t.to_multiset_ensures();
            assert(t.contains(x@));
            assert(t.to_multiset().count(x@) > 0);
            assert(tb.to_multiset() =~= t.to_multiset().remove(x@));
            assert(t.to_multiset() =~= tb.to_multiset().insert(x@));
            let pre = texts_of(items@.take(k as int));
            assert(texts_of(items@.take(k + 1)) =~= pre.push(x@));
            pre.to_multiset_ensures();
        }
        k = k + 1;
    }
    assert(items@.take(items.len() as int) =~= items@);
    out
}

} // verus!
