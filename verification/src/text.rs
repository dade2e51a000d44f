use vstd::prelude::*;
use vstd::string::*;

verus! {

/// The characters of a string, in a vector.
pub fn chars_of(s: &str) -> (res: Vec<char>)
    ensures
        res@ == s@,
{
    let mut res: Vec<char> = Vec::new();
    for c in it: s.chars()
        invariant
            res@ == it.seq().take(it.index() as int),
    {
        res.push(c);
    }
    res
}

/// The characters with the Unicode White_Space property, which
/// `char::is_whitespace` tests.
pub open spec fn is_white_space(c: char) -> bool {
    let u = c as u32;
    (0x9 <= u && u <= 0xD) || u == 0x20 || u == 0x85 || u == 0xA0 || u == 0x1680 || (0x2000 <= u
        && u <= 0x200A) || u == 0x2028 || u == 0x2029 || u == 0x202F || u == 0x205F || u == 0x3000
}

/// Whether `c` is white space.
pub fn is_white_space_char(c: char) -> (res: bool)
    ensures
        res == is_white_space(c),
{
    let u = c as u32;
    (0x9 <= u && u <= 0xD) || u == 0x20 || u == 0x85 || u == 0xA0 || u == 0x1680 || (0x2000 <= u
        && u <= 0x200A) || u == 0x2028 || u == 0x2029 || u == 0x202F || u == 0x205F || u == 0x3000
}

/// The index of the first `c` in `s`.
pub open spec fn first_index(s: Seq<char>, c: char) -> Option<nat>
    decreases s.len(),
{
    if s.len() == 0 {
        None
    } else if s[0] == c {
        Some(0)
    } else {
        match first_index(s.drop_first(), c) {
            Some(k) => Some(k + 1),
            None => None,
        }
    }
}

/// The pieces of `s` between occurrences of `sep`, as `str::split` yields
/// them: one more piece than there are separators.
pub open spec fn split_on(s: Seq<char>, sep: char) -> Seq<Seq<char>>
    decreases s.len(),
{
    match first_index(s, sep) {
        None => seq![s],
        Some(i) => if i < s.len() {
            seq![s.take(i as int)] + split_on(s.skip((i + 1) as int), sep)
        } else {
            seq![s]
        },
    }
}

/// `s` begins with `p`.
pub open spec fn starts_with(s: Seq<char>, p: Seq<char>) -> bool {
    p.len() <= s.len() && s.take(p.len() as int) == p
}

/// `p` occurs somewhere in `s`.
pub open spec fn contains_seq(s: Seq<char>, p: Seq<char>) -> bool {
    exists|i: int| 0 <= i && i + p.len() <= s.len() && #[trigger] s.subrange(i, i + p.len()) == p
}

/// The number of leading characters of `s` that are not white space.
pub open spec fn word_len(s: Seq<char>) -> nat
    decreases s.len(),
{
    if s.len() == 0 || is_white_space(s[0]) {
        0
    } else {
        word_len(s.drop_first()) + 1
    }
}

/// The maximal runs of non-white-space characters of `s`, as
/// `str::split_whitespace` yields them.
pub open spec fn words(s: Seq<char>) -> Seq<Seq<char>>
    decreases s.len(),
{
    if s.len() == 0 {
        Seq::empty()
    } else if is_white_space(s[0]) {
        words(s.drop_first())
    } else {
        let n = word_len(s);
        if 0 < n <= s.len() {
            seq![s.take(n as int)] + words(s.skip(n as int))
        } else {
            Seq::empty()
        }
    }
}

/// `s` without its leading white space.
pub open spec fn trim_start(s: Seq<char>) -> Seq<char>
    decreases s.len(),
{
    if s.len() > 0 && is_white_space(s[0]) {
        trim_start(s.drop_first())
    } else {
        s
    }
}

/// `s` without its trailing white space.
pub open spec fn trim_end(s: Seq<char>) -> Seq<char>
    decreases s.len(),
{
    if s.len() > 0 && is_white_space(s.last()) {
        trim_end(s.drop_last())
    } else {
        s
    }
}

/// `s` without white space at either end, as `str::trim` gives it.
pub open spec fn trim(s: Seq<char>) -> Seq<char> {
    trim_end(trim_start(s))
}

/// The number of bytes of the UTF-8 encoding of `c` (`char::len_utf8`).
pub open spec fn utf8_width(c: char) -> nat {
    let u = c as u32;
    if u < 0x80 {
        1
    } else if u < 0x800 {
        2
    } else if u < 0x10000 {
        3
    } else {
        4
    }
}

/// The number of bytes of the UTF-8 encoding of `s`.
pub open spec fn utf8_len(s: Seq<char>) -> nat
    decreases s.len(),
{
    if s.len() == 0 {
        0
    } else {
        utf8_len(s.drop_last()) + utf8_width(s.last())
    }
}

/// The substrings of `s` that the index ranges pick out.
pub open spec fn pieces(s: Seq<char>, rs: Seq<(usize, usize)>) -> Seq<Seq<char>> {
    Seq::new(rs.len(), |k: int| s.subrange(rs[k].0 as int, rs[k].1 as int))
}

/// Every range lies within `lo..hi` and is ordered.
pub open spec fn ranges_within(rs: Seq<(usize, usize)>, lo: int, hi: int) -> bool {
    forall|k: int| 0 <= k < rs.len() ==> lo <= (#[trigger] rs[k]).0 <= rs[k].1 <= hi
}

pub proof fn lemma_first_index(s: Seq<char>, c: char)
    ensures
        first_index(s, c) matches Some(k) ==> k < s.len() && s[k as int] == c && forall|j: int|
            0 <= j < k ==> s[j] != c,
        first_index(s, c) is None ==> forall|j: int| 0 <= j < s.len() ==> s[j] != c,
    decreases s.len(),
{
    if s.len() > 0 {
        lemma_first_index(s.drop_first(), c);
        if s[0] != c {
            assert forall|j: int| 1 <= j < s.len() implies s[j] == s.drop_first()[j - 1] by {}
        }
    }
}

pub proof fn lemma_first_index_unique(s: Seq<char>, c: char, k: nat)
    requires
        k < s.len(),
        s[k as int] == c,
        forall|j: int| 0 <= j < k ==> s[j] != c,
    ensures
        first_index(s, c) == Some(k),
    decreases k,
{
    if k > 0 {
        assert forall|j: int| 0 <= j < k - 1 implies s.drop_first()[j] != c by {
            assert(s.drop_first()[j] == s[j + 1]);
        }
        lemma_first_index_unique(s.drop_first(), c, (k - 1) as nat);
    }
}

pub proof fn lemma_first_index_none(s: Seq<char>, c: char)
    requires
        forall|j: int| 0 <= j < s.len() ==> s[j] != c,
    ensures
        first_index(s, c) is None,
    decreases s.len(),
{
    if s.len() > 0 {
        assert forall|j: int| 0 <= j < s.len() - 1 implies s.drop_first()[j] != c by {
            assert(s.drop_first()[j] == s[j + 1]);
        }
        lemma_first_index_none(s.drop_first(), c);
    }
}

/// The first index in `lo..hi` that holds `c`.
pub fn find_char(chars: &Vec<char>, lo: usize, hi: usize, c: char) -> (res: Option<usize>)
    requires
        lo <= hi <= chars.len(),
    ensures
        res matches Some(i) ==> lo <= i < hi && first_index(chars@.subrange(lo as int, hi as int), c)
            == Some((i - lo) as nat),
        res is None ==> first_index(chars@.subrange(lo as int, hi as int), c) is None,
{
    let ghost s = chars@.subrange(lo as int, hi as int);
    let mut i = lo;
    while i < hi
        invariant
            lo <= i <= hi <= chars.len(),
            s == chars@.subrange(lo as int, hi as int),
            forall|j: int| 0 <= j < i - lo ==> s[j] != c,
        decreases hi - i,
    {
        if chars[i] == c {
            proof {
                lemma_first_index_unique(s, c, (i - lo) as nat);
            }
            return Some(i);
        }
        i = i + 1;
    }
    proof {
        lemma_first_index_none(s, c);
    }
    None
}

/// The ranges of the pieces of `chars[lo..hi]` between occurrences of `sep`.
pub fn split_ranges(chars: &Vec<char>, lo: usize, hi: usize, sep: char) -> (res: Vec<
    (usize, usize),
>)
    requires
        lo <= hi <= chars.len(),
    ensures
        ranges_within(res@, lo as int, hi as int),
        pieces(chars@, res@) == split_on(chars@.subrange(lo as int, hi as int), sep),
{
    let mut res: Vec<(usize, usize)> = Vec::new();
    let mut pos = lo;
    loop
        invariant
            lo <= pos <= hi <= chars.len(),
            ranges_within(res@, lo as int, hi as int),
            split_on(chars@.subrange(lo as int, hi as int), sep) == pieces(chars@, res@) + split_on(
                chars@.subrange(pos as int, hi as int),
                sep,
            ),
        decreases hi - pos,
    {
        let ghost rest = chars@.subrange(pos as int, hi as int);
        match find_char(chars, pos, hi, sep) {
            Some(i) => {
                proof {
                    assert(rest.take(i - pos) == chars@.subrange(pos as int, i as int));
                    assert(rest.skip(i - pos + 1) == chars@.subrange(i + 1, hi as int));
                    assert(pieces(chars@, res@.push((pos, i))) == pieces(chars@, res@).push(
                        chars@.subrange(pos as int, i as int),
                    ));
                }
                res.push((pos, i));
                pos = i + 1;
            },
            None => {
                proof {
                    assert(pieces(chars@, res@.push((pos, hi))) == pieces(chars@, res@).push(
                        chars@.subrange(pos as int, hi as int),
                    ));
                }
                res.push((pos, hi));
                return res;
            },
        }
    }
}

/// Whether `chars` begins with `pat`.
pub fn starts_with_chars(chars: &Vec<char>, pat: &Vec<char>) -> (res: bool)
    ensures
        res == starts_with(chars@, pat@),
{
    if pat.len() > chars.len() {
        return false;
    }
    let mut i: usize = 0;
    while i < pat.len()
        invariant
            i <= pat.len() <= chars.len(),
            forall|j: int| 0 <= j < i ==> chars@[j] == pat@[j],
        decreases pat.len() - i,
    {
        if chars[i] != pat[i] {
            proof {
                assert(chars@.take(pat.len() as int)[i as int] != pat@[i as int]);
            }
            return false;
        }
        i = i + 1;
    }
    proof {
        assert(chars@.take(pat.len() as int) == pat@);
    }
    true
}

/// Whether `chars[at..]` begins with `pat`.
fn matches_at(chars: &Vec<char>, at: usize, pat: &Vec<char>) -> (res: bool)
    requires
        at + pat.len() <= chars.len(),
    ensures
        res == (chars@.subrange(at as int, at + pat.len()) == pat@),
{
    let mut i: usize = 0;
    while i < pat.len()
        invariant
            i <= pat.len(),
            at + pat.len() <= chars.len(),
            forall|j: int| 0 <= j < i ==> chars@[at + j] == pat@[j],
        decreases pat.len() - i,
    {
        if chars[at + i] != pat[i] {
            proof {
                assert(chars@.subrange(at as int, at + pat.len())[i as int] != pat@[i as int]);
            }
            return false;
        }
        i = i + 1;
    }
    proof {
        assert(chars@.subrange(at as int, at + pat.len()) == pat@);
    }
    true
}

/// Whether `pat` occurs somewhere in `chars`.
pub fn contains_chars(chars: &Vec<char>, pat: &Vec<char>) -> (res: bool)
    ensures
        res == contains_seq(chars@, pat@),
{
    if pat.len() > chars.len() {
        return false;
    }
    let last = chars.len() - pat.len();
    let mut at: usize = 0;
    while at <= last
        invariant
            last + pat.len() == chars.len(),
            at <= last + 1,
            forall|i: int| 0 <= i < at ==> #[trigger] chars@.subrange(i, i + pat.len()) != pat@,
        decreases last + 1 - at,
    {
        if matches_at(chars, at, pat) {
            return true;
        }
        if at == last {
            return false;
        }
        at = at + 1;
    }
    false
}

pub proof fn lemma_word_len(s: Seq<char>, k: nat)
    requires
        k <= s.len(),
        forall|t: int| 0 <= t < k ==> !is_white_space(#[trigger] s[t]),
        k == s.len() || is_white_space(s[k as int]),
    ensures
        word_len(s) == k,
    decreases k,
{
    if k > 0 {
        assert forall|t: int| 0 <= t < k - 1 implies !is_white_space(#[trigger] s.drop_first()[t]) by {
            assert(s.drop_first()[t] == s[t + 1]);
        }
        if k < s.len() {
            assert(s.drop_first()[k - 1] == s[k as int]);
        }
        lemma_word_len(s.drop_first(), (k - 1) as nat);
    }
}

/// The ranges of the words of `chars[lo..hi]`.
pub fn word_ranges(chars: &Vec<char>, lo: usize, hi: usize) -> (res: Vec<(usize, usize)>)
    requires
        lo <= hi <= chars.len(),
    ensures
        ranges_within(res@, lo as int, hi as int),
        pieces(chars@, res@) == words(chars@.subrange(lo as int, hi as int)),
{
    let mut res: Vec<(usize, usize)> = Vec::new();
    let mut pos = lo;
    while pos < hi
        invariant
            lo <= pos <= hi <= chars.len(),
            ranges_within(res@, lo as int, hi as int),
            words(chars@.subrange(lo as int, hi as int)) == pieces(chars@, res@) + words(
                chars@.subrange(pos as int, hi as int),
            ),
        decreases hi - pos,
    {
        let ghost rest = chars@.subrange(pos as int, hi as int);
        if is_white_space_char(chars[pos]) {
            proof {
                assert(rest.drop_first() == chars@.subrange(pos + 1, hi as int));
            }
            pos = pos + 1;
        } else {
            let mut end = pos + 1;
            while end < hi && !is_white_space_char(chars[end])
                invariant
                    pos < end <= hi <= chars.len(),
                    rest == chars@.subrange(pos as int, hi as int),
                    forall|t: int| 0 <= t < end - pos ==> !is_white_space(#[trigger] rest[t]),
                decreases hi - end,
            {
                end = end + 1;
            }
            proof {
                lemma_word_len(rest, (end - pos) as nat);
                assert(rest.take(end - pos) == chars@.subrange(pos as int, end as int));
                assert(rest.skip(end - pos) == chars@.subrange(end as int, hi as int));
                assert(pieces(chars@, res@.push((pos, end))) == pieces(chars@, res@).push(
                    chars@.subrange(pos as int, end as int),
                ));
            }
            res.push((pos, end));
            pos = end;
        }
    }
    proof {
        assert(chars@.subrange(pos as int, hi as int) == Seq::<char>::empty());
    }
    res
}

pub proof fn lemma_trim_start(s: Seq<char>, k: nat)
    requires
        k <= s.len(),
        forall|t: int| 0 <= t < k ==> is_white_space(#[trigger] s[t]),
        k == s.len() || !is_white_space(s[k as int]),
    ensures
        trim_start(s) == s.skip(k as int),
    decreases k,
{
    if k > 0 {
        assert forall|t: int| 0 <= t < k - 1 implies is_white_space(#[trigger] s.drop_first()[t]) by {
            assert(s.drop_first()[t] == s[t + 1]);
        }
        if k < s.len() {
            assert(s.drop_first()[k - 1] == s[k as int]);
        }
        lemma_trim_start(s.drop_first(), (k - 1) as nat);
        assert(s.drop_first().skip(k - 1) == s.skip(k as int));
    } else {
        assert(s.skip(0) == s);
    }
}

pub proof fn lemma_trim_end(s: Seq<char>, k: nat)
    requires
        k <= s.len(),
        forall|t: int| k <= t < s.len() ==> is_white_space(#[trigger] s[t]),
        k == 0 || !is_white_space(s[k - 1]),
    ensures
        trim_end(s) == s.take(k as int),
    decreases s.len() - k,
{
    if k < s.len() {
        assert forall|t: int| k <= t < s.len() - 1 implies is_white_space(#[trigger] s.drop_last()[t]) by {
            assert(s.drop_last()[t] == s[t]);
        }
        if k > 0 {
            assert(s.drop_last()[k - 1] == s[k - 1]);
        }
        lemma_trim_end(s.drop_last(), k);
        assert(s.drop_last().take(k as int) == s.take(k as int));
    } else {
        assert(s.take(k as int) == s);
    }
}

/// The range of `chars[lo..hi]` without white space at either end.
pub fn trim_range(chars: &Vec<char>, lo: usize, hi: usize) -> (res: (usize, usize))
    requires
        lo <= hi <= chars.len(),
    ensures
        lo <= res.0 <= res.1 <= hi,
        chars@.subrange(res.0 as int, res.1 as int) == trim(chars@.subrange(lo as int, hi as int)),
{
    let ghost s = chars@.subrange(lo as int, hi as int);
    let mut a = lo;
    while a < hi && is_white_space_char(chars[a])
        invariant
            lo <= a <= hi <= chars.len(),
            s == chars@.subrange(lo as int, hi as int),
            forall|t: int| 0 <= t < a - lo ==> is_white_space(#[trigger] s[t]),
        decreases hi - a,
    {
        a = a + 1;
    }
    proof {
        lemma_trim_start(s, (a - lo) as nat);
        assert(s.skip(a - lo) == chars@.subrange(a as int, hi as int));
    }
    let ghost t = chars@.subrange(a as int, hi as int);
    let mut b = hi;
    while b > a && is_white_space_char(chars[b - 1])
        invariant
            lo <= a <= b <= hi <= chars.len(),
            t == chars@.subrange(a as int, hi as int),
            forall|j: int| b - a <= j < t.len() ==> is_white_space(#[trigger] t[j]),
        decreases b,
    {
        b = b - 1;
    }
    proof {
        lemma_trim_end(t, (b - a) as nat);
        assert(t.take(b - a) == chars@.subrange(a as int, b as int));
    }
    (a, b)
}

/// The number of bytes `char::len_utf8` gives.
pub fn char_width(c: char) -> (res: usize)
    ensures
        res == utf8_width(c),
{
    let u = c as u32;
    if u < 0x80 {
        1
    } else if u < 0x800 {
        2
    } else if u < 0x10000 {
        3
    } else {
        4
    }
}

pub proof fn lemma_utf8_len_grows(s: Seq<char>, i: int, j: int)
    requires
        0 <= i <= j <= s.len(),
    ensures
        utf8_len(s.take(i)) <= utf8_len(s.take(j)),
        i < j ==> utf8_len(s.take(i)) < utf8_len(s.take(j)),
    decreases j - i,
{
    if i < j {
        assert(s.take(j).drop_last() == s.take(j - 1));
        lemma_utf8_len_grows(s, i, j - 1);
    }
}

/// The number of characters whose encoding takes exactly `offset` bytes,
/// if the byte offset falls on a character boundary of `chars`.
pub fn char_index_of_byte(chars: &Vec<char>, offset: usize) -> (res: Option<usize>)
    requires
        offset <= usize::MAX - 4,
    ensures
        res matches Some(k) ==> k <= chars.len() && utf8_len(chars@.take(k as int)) == offset,
        res is None ==> forall|k: int| 0 <= k <= chars.len() ==> utf8_len(#[trigger] chars@.take(k))
            != offset,
{
    let mut k: usize = 0;
    let mut bytes: usize = 0;
    proof {
        assert(chars@.take(0) == Seq::<char>::empty());
    }
    while bytes < offset && k < chars.len()
        invariant
            k <= chars.len(),
            offset <= usize::MAX - 4,
            bytes <= offset + 3,
            bytes == utf8_len(chars@.take(k as int)),
            forall|j: int| 0 <= j < k ==> utf8_len(#[trigger] chars@.take(j)) < offset,
        decreases chars.len() - k,
    {
        proof {
            assert(chars@.take(k + 1).drop_last() == chars@.take(k as int));
        }
        bytes = bytes + char_width(chars[k]);
        k = k + 1;
    }
    if bytes == offset {
        Some(k)
    } else {
        proof {
            assert forall|j: int| 0 <= j <= chars.len() implies utf8_len(#[trigger] chars@.take(j))
                != offset by {
                if j >= k {
                    lemma_utf8_len_grows(chars@, k as int, j);
                }
            }
        }
        None
    }
}

/// The character of the decimal digit `d`.
pub open spec fn digit_char(d: nat) -> char {
    (48 + d) as char
}

/// The decimal notation of `n`, as `usize`'s `Display` writes it.
pub open spec fn decimal_text(n: nat) -> Seq<char>
    decreases n,
{
    if n < 10 {
        seq![digit_char(n)]
    } else {
        decimal_text(n / 10).push(digit_char(n % 10))
    }
}

/// The one-character string of the digit `d`.
fn digit_str(d: usize) -> (res: &'static str)
    requires
        d < 10,
    ensures
        res@ == seq![digit_char(d as nat)],
{
    proof {
        reveal_strlit("0");
        reveal_strlit("1");
        reveal_strlit("2");
        reveal_strlit("3");
        reveal_strlit("4");
        reveal_strlit("5");
        reveal_strlit("6");
        reveal_strlit("7");
        reveal_strlit("8");
        reveal_strlit("9");
    }
    let res = match d {
        0 => "0",
        1 => "1",
        2 => "2",
        3 => "3",
        4 => "4",
        5 => "5",
        6 => "6",
        7 => "7",
        8 => "8",
        _ => "9",
    };
    assert(res@ =~= seq![digit_char(d as nat)]);
    res
}

/// The decimal notation of `n`.
pub fn format_decimal(n: usize) -> (res: String)
    ensures
        res@ == decimal_text(n as nat),
    decreases n,
{
    if n < 10 {
        String::from_str(digit_str(n))
    } else {
        let mut res = format_decimal(n / 10);
        res.append(digit_str(n % 10));
        res
    }
}

/// A token that a report line can carry: not empty, without white space
/// and without parentheses.
pub open spec fn is_plain_token(t: Seq<char>) -> bool {
    &&& t.len() > 0
    &&& forall|i: int|
        0 <= i < t.len() ==> !is_white_space(#[trigger] t[i]) && t[i] != '(' && t[i] != ')'
}

/// Decimal notation is a plain token.
pub proof fn lemma_decimal_plain(n: nat)
    ensures
        is_plain_token(decimal_text(n)),
        forall|i: int| 0 <= i < decimal_text(n).len() ==> (#[trigger] decimal_text(n)[i] as u32) < 0x80,
    decreases n,
{
    if n >= 10 {
        lemma_decimal_plain(n / 10);
    }
}

/// The tokens, each preceded by a space.
pub open spec fn join_spaced(vals: Seq<Seq<char>>) -> Seq<char>
    decreases vals.len(),
{
    if vals.len() == 0 {
        Seq::empty()
    } else {
        seq![' '] + vals[0] + join_spaced(vals.drop_first())
    }
}

pub proof fn lemma_join_spaced_push(vals: Seq<Seq<char>>, v: Seq<char>)
    ensures
        join_spaced(vals.push(v)) == join_spaced(vals) + seq![' '] + v,
    decreases vals.len(),
{
    if vals.len() == 0 {
        assert(vals.push(v).drop_first() =~= Seq::<Seq<char>>::empty());
        assert(vals.push(v)[0] == v);
        assert(join_spaced(vals.push(v).drop_first()) == Seq::<char>::empty());
        assert(join_spaced(vals.push(v)) =~= seq![' '] + v);
    } else {
        assert(vals.push(v).drop_first() =~= vals.drop_first().push(v));
        assert(vals.push(v)[0] == vals[0]);
        lemma_join_spaced_push(vals.drop_first(), v);
        assert(join_spaced(vals.push(v)) =~= join_spaced(vals) + seq![' '] + v);
    }
}

/// Spaced tokens hold no character that is neither a space nor in a token.
pub proof fn lemma_join_spaced_chars(vals: Seq<Seq<char>>, c: char)
    requires
        c != ' ',
        forall|k: int| 0 <= k < vals.len() ==> !(#[trigger] vals[k]).contains(c),
    ensures
        !join_spaced(vals).contains(c),
    decreases vals.len(),
{
    if vals.len() > 0 {
        lemma_join_spaced_chars(vals.drop_first(), c);
        let j = join_spaced(vals);
        let r = join_spaced(vals.drop_first());
        assert(j == seq![' '] + vals[0] + r);
        if j.contains(c) {
            let i = choose|i: int| 0 <= i < j.len() && j[i] == c;
            if i > 0 && i < 1 + vals[0].len() {
                assert(vals[0][i - 1] == c);
            } else if i >= 1 + vals[0].len() {
                assert(r[i - 1 - vals[0].len()] == c);
            }
        }
    }
}

/// Law: the words of spaced plain tokens are the tokens.
pub proof fn lemma_words_join_spaced(vals: Seq<Seq<char>>)
    requires
        forall|k: int| 0 <= k < vals.len() ==> is_plain_token(#[trigger] vals[k]),
    ensures
        words(join_spaced(vals)) == vals,
    decreases vals.len(),
{
    if vals.len() == 0 {
        assert(words(Seq::<char>::empty()) == Seq::<Seq<char>>::empty());
    } else {
        let v = vals[0];
        let rest = vals.drop_first();
        let r = join_spaced(rest);
        let j = join_spaced(vals);
        assert(is_plain_token(v));
        assert forall|k: int| 0 <= k < rest.len() implies is_plain_token(#[trigger] rest[k]) by {
            assert(rest[k] == vals[k + 1]);
        }
        lemma_words_join_spaced(rest);
        let w = v + r;
        assert(j.drop_first() =~= w);
        assert(is_white_space(j[0]));
        assert(words(j) == words(w));
        assert forall|t: int| 0 <= t < v.len() implies !is_white_space(#[trigger] w[t]) by {
            assert(w[t] == v[t]);
        }
        if r.len() > 0 {
            assert(r[0] == ' ');
            assert(w[v.len() as int] == r[0]);
        }
        lemma_word_len(w, v.len());
        assert(w.take(v.len() as int) =~= v);
        assert(w.skip(v.len() as int) =~= r);
        assert(!is_white_space(w[0]));
        assert(words(w) == seq![v] + words(r));
        assert(seq![v] + rest =~= vals);
    }
}

/// Splitting a piece without the separator gives the piece itself.
pub proof fn lemma_split_on_none(x: Seq<char>, sep: char)
    requires
        !x.contains(sep),
    ensures
        split_on(x, sep) == seq![x],
{
    assert forall|j: int| 0 <= j < x.len() implies x[j] != sep by {
        if x[j] == sep {
            assert(x.contains(sep));
        }
    }
    lemma_first_index_none(x, sep);
}

/// Splitting `x`, a separator and `rest`, where `x` has no separator, gives
/// `x` followed by the pieces of `rest`.
pub proof fn lemma_split_on_first(x: Seq<char>, rest: Seq<char>, sep: char)
    requires
        !x.contains(sep),
    ensures
        split_on(x + seq![sep] + rest, sep) == seq![x] + split_on(rest, sep),
{
    let s = x + seq![sep] + rest;
    assert forall|j: int| 0 <= j < x.len() implies s[j] != sep by {
        assert(s[j] == x[j]);
        if x[j] == sep {
            assert(x.contains(sep));
        }
    }
    assert(s[x.len() as int] == sep);
    lemma_first_index_unique(s, sep, x.len());
    assert(s.take(x.len() as int) =~= x);
    assert(s.skip((x.len() + 1) as int) =~= rest);
}

/// A string of one-byte characters takes one byte per character.
pub proof fn lemma_ascii_utf8_len(s: Seq<char>)
    requires
        forall|i: int| 0 <= i < s.len() ==> (#[trigger] s[i] as u32) < 0x80,
    ensures
        utf8_len(s) == s.len(),
    decreases s.len(),
{
    if s.len() > 0 {
        assert(s[s.len() - 1] == s.last());
        lemma_ascii_utf8_len(s.drop_last());
    }
}

} // verus!
