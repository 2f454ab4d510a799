//! Text as sequences of characters.
use vstd::prelude::*;
use vstd::string::StrSliceExecFns;
use vstd::string::StringExecFns;

verus! {

/// `String::push`: appends one character.
pub assume_specification[ String::push ](s: &mut String, c: char)
    ensures
        final(s)@ == old(s)@.push(c),
;

/// The characters with the Unicode property White_Space.
pub open spec fn is_space(c: char) -> bool {
    ||| '\u{9}' <= c <= '\u{d}'
    ||| c == ' '
    ||| c == '\u{85}'
    ||| c == '\u{a0}'
    ||| c == '\u{1680}'
    ||| '\u{2000}' <= c <= '\u{200a}'
    ||| c == '\u{2028}'
    ||| c == '\u{2029}'
    ||| c == '\u{202f}'
    ||| c == '\u{205f}'
    ||| c == '\u{3000}'
}

pub fn is_whitespace(c: char) -> (r: bool)
    ensures
        r == is_space(c),
{
    ('\u{9}' <= c && c <= '\u{d}') || c == ' ' || c == '\u{85}' || c == '\u{a0}' || c == '\u{1680}'
        || ('\u{2000}' <= c && c <= '\u{200a}') || c == '\u{2028}' || c == '\u{2029}'
        || c == '\u{202f}' || c == '\u{205f}' || c == '\u{3000}'
}

/// The text without the spaces that it begins with.
pub open spec fn without_leading(s: Seq<char>) -> Seq<char>
    decreases s.len(),
{
    if s.len() > 0 && is_space(s[0]) {
        without_leading(s.skip(1))
    } else {
        s
    }
}

/// The text without the spaces that it ends with.
pub open spec fn without_trailing(s: Seq<char>) -> Seq<char>
    decreases s.len(),
{
    if s.len() > 0 && is_space(s.last()) {
        without_trailing(s.drop_last())
    } else {
        s
    }
}

pub open spec fn trimmed(s: Seq<char>) -> Seq<char> {
    without_trailing(without_leading(s))
}

pub(crate) fn characters(s: &str) -> (r: Vec<char>)
    ensures
        r@ == s@,
{
    let mut r: Vec<char> = Vec::new();
    for c in it: s.chars()
        invariant
            r@ == it.seq().take(it.index()),
            it.seq() == s@,
    {
        r.push(c);
        assert(it.seq().take(it.index() + 1) =~= it.seq().take(it.index()).push(c));
    }
    r
}

pub(crate) fn text_of(chars: &[char]) -> (r: String)
    ensures
        r@ == chars@,
{
    let mut r = String::new();
    for i in 0..chars.len()
        invariant
            r@ == chars@.take(i as int),
    {
        r.push(chars[i]);
        assert(chars@.take(i + 1) =~= chars@.take(i as int).push(chars@[i as int]));
    }
    assert(chars@.take(chars@.len() as int) =~= chars@);
    r
}

pub(crate) fn owned(s: &str) -> (r: String)
    ensures
        r@ == s@,
{
    let mut r = String::new();
    r.append(s);
    assert(r@ =~= s@);
    r
}

pub(crate) fn same_text(a: &str, b: &str) -> (r: bool)
    ensures
        r == (a@ == b@),
{
    let x = characters(a);
    let y = characters(b);
    if x.len() != y.len() {
        return false;
    }
    for i in 0..x.len()
        invariant
            x@ == a@,
            y@ == b@,
            x@.len() == y@.len(),
            x@.take(i as int) == y@.take(i as int),
    {
        if x[i] != y[i] {
            return false;
        }
        assert(x@.take(i + 1) =~= x@.take(i as int).push(x@[i as int]));
        assert(y@.take(i + 1) =~= y@.take(i as int).push(y@[i as int]));
    }
    assert(x@.take(x@.len() as int) =~= x@);
    assert(y@.take(y@.len() as int) =~= y@);
    true
}

pub(crate) proof fn lemma_without_leading(s: Seq<char>, k: int)
    requires
        0 <= k <= s.len(),
        forall|i: int| 0 <= i < k ==> is_space(#[trigger] s[i]),
        k < s.len() ==> !is_space(s[k]),
    ensures
        without_leading(s) == s.skip(k),
    decreases k,
{
    if k == 0 {
        assert(s.skip(0) =~= s);
    } else {
        assert forall|i: int| 0 <= i < k - 1 implies is_space(#[trigger] s.skip(1)[i]) by {
            assert(s.skip(1)[i] == s[i + 1]);
        }
        lemma_without_leading(s.skip(1), k - 1);
        assert(s.skip(1).skip(k - 1) =~= s.skip(k));
    }
}

pub(crate) proof fn lemma_without_trailing(s: Seq<char>, k: int)
    requires
        0 <= k <= s.len(),
        forall|i: int| k <= i < s.len() ==> is_space(#[trigger] s[i]),
        k > 0 ==> !is_space(s[k - 1]),
    ensures
        without_trailing(s) == s.take(k),
    decreases s.len(),
{
    if k == s.len() {
        assert(s.take(k) =~= s);
    } else {
        lemma_without_trailing(s.drop_last(), k);
        assert(s.drop_last().take(k) =~= s.take(k));
    }
}

/// Trimming cuts a text to the part between its first and its last character that is no space.
pub(crate) proof fn lemma_trimmed(s: Seq<char>, start: int, end: int)
    requires
        0 <= start <= end <= s.len(),
        forall|i: int| 0 <= i < start ==> is_space(#[trigger] s[i]),
        forall|i: int| end <= i < s.len() ==> is_space(#[trigger] s[i]),
        start < end ==> !is_space(s[start]) && !is_space(s[end - 1]),
        start == end ==> end == s.len(),
    ensures
        trimmed(s) == s.subrange(start, end),
{
    lemma_without_leading(s, start);
    let t = s.skip(start);
    assert forall|i: int| end - start <= i < t.len() implies is_space(#[trigger] t[i]) by {
        assert(t[i] == s[start + i]);
    }
    lemma_without_trailing(t, end - start);
    assert(t.take(end - start) =~= s.subrange(start, end));
}

/// Where the trimmed part of a text begins and ends.
pub(crate) fn trim_bounds(chars: &[char]) -> (r: (usize, usize))
    ensures
        r.0 <= r.1 <= chars@.len(),
        trimmed(chars@) == chars@.subrange(r.0 as int, r.1 as int),
        r.0 < r.1 ==> !is_space(chars@[r.0 as int]) && !is_space(chars@[r.1 - 1]),
        r.0 == r.1 ==> r.1 == chars@.len(),
        forall|i: int| 0 <= i < r.0 ==> is_space(#[trigger] chars@[i]),
        forall|i: int| r.1 <= i < chars@.len() ==> is_space(#[trigger] chars@[i]),
{
    let n = chars.len();
    let mut start: usize = 0;
    while start < n && is_whitespace(chars[start])
        invariant
            n == chars@.len(),
            start <= n,
            forall|i: int| 0 <= i < start ==> is_space(#[trigger] chars@[i]),
        decreases n - start,
    {
        start += 1;
    }
    let mut end: usize = n;
    while end > start && is_whitespace(chars[end - 1])
        invariant
            n == chars@.len(),
            start <= end <= n,
            start < n ==> !is_space(chars@[start as int]),
            forall|i: int| end <= i < n ==> is_space(#[trigger] chars@[i]),
        decreases end,
    {
        end -= 1;
    }
    proof {
        lemma_trimmed(chars@, start as int, end as int);
    }
    (start, end)
}

/// The text without the spaces around it.
pub fn trim(s: &str) -> (r: &str)
    ensures
        r@ == trimmed(s@),
{
    let chars = characters(s);
    let (start, end) = trim_bounds(chars.as_slice());
    s.substring_char(start, end)
}

/// Whether a text holds nothing but spaces.
pub fn is_blank(s: &str) -> (r: bool)
    ensures
        r == (trimmed(s@).len() == 0),
{
    trim(s).is_empty()
}

/// Nothing is left of a text exactly when it holds only spaces.
pub proof fn lemma_blank(s: Seq<char>)
    ensures
        trimmed(s).len() == 0 <==> forall|i: int| 0 <= i < s.len() ==> is_space(#[trigger] s[i]),
    decreases s.len(),
{
    if s.len() > 0 && is_space(s[0]) {
        lemma_blank(s.skip(1));
        assert(trimmed(s) == trimmed(s.skip(1)));
        if forall|i: int| 0 <= i < s.skip(1).len() ==> is_space(#[trigger] s.skip(1)[i]) {
            assert forall|i: int| 0 <= i < s.len() implies is_space(#[trigger] s[i]) by {
                if i > 0 {
                    assert(s[i] == s.skip(1)[i - 1]);
                }
            }
        } else {
            let i = choose|i: int|
                0 <= i < s.skip(1).len() && !is_space(#[trigger] s.skip(1)[i]);
            assert(!is_space(s[i + 1]));
        }
    } else if s.len() > 0 {
        lemma_trailing_keeps(s);
    }
}

proof fn lemma_trailing_keeps(s: Seq<char>)
    requires
        s.len() > 0,
        !is_space(s[0]),
    ensures
        without_trailing(s).len() > 0,
    decreases s.len(),
{
    if is_space(s.last()) {
        lemma_trailing_keeps(s.drop_last());
    }
}

proof fn lemma_leading_cut(s: Seq<char>)
    ensures
        without_leading(s).len() <= s.len(),
        without_leading(s).len() > 0 ==> !is_space(without_leading(s)[0]),
        without_leading(s) == s.skip(s.len() - without_leading(s).len()),
    decreases s.len(),
{
    if s.len() > 0 && is_space(s[0]) {
        lemma_leading_cut(s.skip(1));
        let t = without_leading(s);
        assert(s.skip(1).skip(s.len() - 1 - t.len()) =~= s.skip(s.len() - t.len()));
    } else {
        assert(s.skip(0) =~= s);
    }
}

proof fn lemma_trailing_cut(s: Seq<char>)
    ensures
        without_trailing(s).len() <= s.len(),
        without_trailing(s).len() > 0 ==> !is_space(without_trailing(s).last()),
        without_trailing(s) == s.take(without_trailing(s).len() as int),
    decreases s.len(),
{
    if s.len() > 0 && is_space(s.last()) {
        lemma_trailing_cut(s.drop_last());
        let t = without_trailing(s);
        assert(s.drop_last().take(t.len() as int) =~= s.take(t.len() as int));
    } else {
        assert(s.take(s.len() as int) =~= s);
    }
}

/// A trimmed text neither begins nor ends with a space, it is a part of the text that it comes
/// from, and trimming it again changes nothing.
pub proof fn trimming_cuts_both_ends(s: Seq<char>)
    ensures
        trimmed(s).len() <= s.len(),
        trimmed(s).len() > 0 ==> !is_space(trimmed(s)[0]) && !is_space(trimmed(s).last()),
        trimmed(s).len() > 0 ==> holds_text(s, trimmed(s)),
        trimmed(trimmed(s)) == trimmed(s),
{
    let a = without_leading(s);
    let b = trimmed(s);
    lemma_leading_cut(s);
    lemma_trailing_cut(a);
    if b.len() > 0 {
        let start = s.len() - a.len();
        assert(s.subrange(start, start + b.len()) =~= b);
        assert(stands_at(s, b, start));
        assert(b[0] == a[0]);
    }
    lemma_trimmed(b, 0, b.len() as int);
    assert(b.subrange(0, b.len() as int) =~= b);
}

/// The text without the characters `c` that it ends with.
pub open spec fn without_trailing_char(s: Seq<char>, c: char) -> Seq<char>
    decreases s.len(),
{
    if s.len() > 0 && s.last() == c {
        without_trailing_char(s.drop_last(), c)
    } else {
        s
    }
}

pub(crate) fn trim_end_char(s: &str, c: char) -> (r: &str)
    ensures
        r@ == without_trailing_char(s@, c),
{
    let chars = characters(s);
    let mut end: usize = chars.len();
    proof {
        assert(s@.take(end as int) =~= s@);
    }
    while end > 0 && chars[end - 1] == c
        invariant
            chars@ == s@,
            end <= chars@.len(),
            without_trailing_char(s@.take(end as int), c) == without_trailing_char(s@, c),
        decreases end,
    {
        proof {
            assert(s@.take(end as int).drop_last() =~= s@.take(end - 1));
        }
        end -= 1;
    }
    assert(s@.subrange(0, end as int) =~= s@.take(end as int));
    s.substring_char(0, end)
}

/// The decimal digits of a number.
pub open spec fn decimal(n: nat) -> Seq<char>
    decreases n,
{
    if n < 10 {
        seq![digit(n)]
    } else {
        decimal(n / 10).push(digit(n % 10))
    }
}

pub open spec fn digit(d: nat) -> char {
    (d + 48) as char
}

fn digit_of(d: u64) -> (r: char)
    requires
        d < 10,
    ensures
        r == digit(d as nat),
{
    match d {
        0 => '0',
        1 => '1',
        2 => '2',
        3 => '3',
        4 => '4',
        5 => '5',
        6 => '6',
        7 => '7',
        8 => '8',
        _ => '9',
    }
}

pub(crate) fn push_decimal(out: &mut String, n: u64)
    ensures
        final(out)@ == old(out)@ + decimal(n as nat),
    decreases n,
{
    if n >= 10 {
        push_decimal(out, n / 10);
    }
    out.push(digit_of(n % 10));
    assert(out@ =~= old(out)@ + decimal(n as nat));
}

/// A signed number in decimal.
pub open spec fn signed_decimal(n: int) -> Seq<char> {
    if n < 0 {
        seq!['-'] + decimal((-n) as nat)
    } else {
        decimal(n as nat)
    }
}

pub(crate) fn push_signed(out: &mut String, n: i32)
    ensures
        final(out)@ == old(out)@ + signed_decimal(n as int),
{
    if n < 0 {
        out.push('-');
        push_decimal(out, (-(n as i64)) as u64);
    } else {
        push_decimal(out, n as u64);
    }
    assert(out@ =~= old(out)@ + signed_decimal(n as int));
}

/// The first `max` characters, followed by an ellipsis where something was cut.
pub open spec fn shortened(s: Seq<char>, max: nat) -> Seq<char> {
    if s.len() <= max {
        s
    } else {
        s.take(max as int).push('\u{2026}')
    }
}

pub fn truncate(s: &str, max_chars: usize) -> (r: String)
    ensures
        r@ == shortened(s@, max_chars as nat),
{
    let chars = characters(s);
    if chars.len() <= max_chars {
        owned(s)
    } else {
        let mut r = owned(s.substring_char(0, max_chars));
        r.push('\u{2026}');
        assert(s@.subrange(0, max_chars as int) =~= s@.take(max_chars as int));
        r
    }
}

/// The parts of a text between the characters `sep`.
pub open spec fn split_at_char(s: Seq<char>, sep: char) -> Seq<Seq<char>>
    decreases s.len(),
{
    if s.len() == 0 {
        seq![Seq::empty()]
    } else if s.last() == sep {
        split_at_char(s.drop_last(), sep).push(Seq::empty())
    } else {
        let parts = split_at_char(s.drop_last(), sep);
        parts.drop_last().push(parts.last().push(s.last()))
    }
}

/// The views of a list of strings.
pub open spec fn views(v: Seq<String>) -> Seq<Seq<char>> {
    v.map_values(|s: String| s@)
}

/// What a result that holds texts stands for.
pub open spec fn result_view(r: Result<String, String>) -> Result<Seq<char>, Seq<char>> {
    match r {
        Ok(s) => Ok(s@),
        Err(s) => Err(s@),
    }
}

pub proof fn lemma_split_nonempty(s: Seq<char>, sep: char)
    ensures
        split_at_char(s, sep).len() > 0,
    decreases s.len(),
{
    if s.len() > 0 {
        lemma_split_nonempty(s.drop_last(), sep);
    }
}

pub(crate) fn split_text(s: &str, sep: char) -> (r: Vec<String>)
    ensures
        views(r@) == split_at_char(s@, sep),
        r@.len() > 0,
{
    let chars = characters(s);
    let mut parts: Vec<String> = Vec::new();
    let mut part = String::new();
    for i in 0..chars.len()
        invariant
            chars@ == s@,
            views(parts@).push(part@) == split_at_char(s@.take(i as int), sep),
    {
        let c = chars[i];
        let ghost before = views(parts@).push(part@);
        proof {
            assert(s@.take(i + 1).drop_last() =~= s@.take(i as int));
        }
        if c == sep {
            parts.push(part);
            part = String::new();
            assert(views(parts@) =~= before);
        } else {
            part.push(c);
            assert(before.drop_last() =~= views(parts@));
        }
        assert(views(parts@).push(part@) =~= split_at_char(s@.take(i + 1), sep));
    }
    assert(s@.take(s@.len() as int) =~= s@);
    let ghost old_parts = parts@;
    parts.push(part);
    assert(views(parts@) =~= views(old_parts).push(part@));
    parts
}

/// Texts joined by a separator.
pub open spec fn joined(parts: Seq<Seq<char>>, sep: Seq<char>) -> Seq<char>
    decreases parts.len(),
{
    if parts.len() == 0 {
        Seq::empty()
    } else if parts.len() == 1 {
        parts[0]
    } else {
        joined(parts.drop_last(), sep) + sep + parts.last()
    }
}

pub fn join_texts(parts: &[String], sep: &str) -> (r: String)
    ensures
        r@ == joined(views(parts@), sep@),
{
    let mut r = String::new();
    for i in 0..parts.len()
        invariant
            r@ == joined(views(parts@).take(i as int), sep@),
    {
        let ghost v = views(parts@);
        if i > 0 {
            r.append(sep);
        }
        r.append(parts[i].as_str());
        proof {
            assert(v.take(i + 1).drop_last() =~= v.take(i as int));
            assert(v.take(i + 1).last() == parts@[i as int]@);
            assert(r@ =~= joined(v.take(i + 1), sep@));
        }
    }
    assert(views(parts@).take(parts@.len() as int) =~= views(parts@));
    r
}

/// Whether `needle` stands in `s` at `i`.
pub open spec fn stands_at(s: Seq<char>, needle: Seq<char>, i: int) -> bool {
    0 <= i && i + needle.len() <= s.len() && s.subrange(i, i + needle.len()) == needle
}

pub open spec fn holds_text(s: Seq<char>, needle: Seq<char>) -> bool {
    exists|i: int| stands_at(s, needle, i)
}

/// The first place at or after `from` where `needle` stands in `s`.
pub(crate) fn find_from(s: &[char], needle: &[char], from: usize) -> (r: Option<usize>)
    requires
        from <= s@.len(),
    ensures
        r matches Some(i) ==> from <= i && stands_at(s@, needle@, i as int) && forall|j: int|
            from <= j < i ==> !stands_at(s@, needle@, j),
        r is None ==> forall|j: int| from <= j ==> !stands_at(s@, needle@, j),
{
    let n = s.len();
    let k = needle.len();
    let mut i: usize = from;
    while i <= n && k <= n - i
        invariant
            n == s@.len(),
            k == needle@.len(),
            from <= i <= n + 1,
            forall|j: int| from <= j < i ==> !stands_at(s@, needle@, j),
        decreases n + 1 - i,
    {
        let mut m: usize = 0;
        while m < k && s[i + m] == needle[m]
            invariant
                n == s@.len(),
                k == needle@.len(),
                i + k <= n,
                m <= k,
                forall|t: int| 0 <= t < m ==> s@[i + t] == needle@[t],
            decreases k - m,
        {
            m += 1;
        }
        if m == k {
            assert(s@.subrange(i as int, i + k) =~= needle@);
            return Some(i);
        }
        proof {
            if stands_at(s@, needle@, i as int) {
                assert(s@.subrange(i as int, i + k)[m as int] == needle@[m as int]);
            }
        }
        if i == n {
            return None;
        }
        i += 1;
    }
    None
}

pub fn contains_text(s: &str, needle: &str) -> (r: bool)
    ensures
        r == holds_text(s@, needle@),
{
    let a = characters(s);
    let b = characters(needle);
    match find_from(a.as_slice(), b.as_slice(), 0) {
        Some(i) => {
            assert(stands_at(s@, needle@, i as int));
            true
        },
        None => false,
    }
}

pub(crate) proof fn lemma_split_extended(a: Seq<char>, b: Seq<char>, sep: char)
    requires
        !b.contains(sep),
    ensures
        split_at_char(a + b, sep) == split_at_char(a, sep).drop_last().push(
            split_at_char(a, sep).last() + b,
        ),
    decreases b.len(),
{
    lemma_split_nonempty(a, sep);
    let parts = split_at_char(a, sep);
    if b.len() == 0 {
        assert(a + b =~= a);
        assert(parts.last() + b =~= parts.last());
        assert(parts.drop_last().push(parts.last()) =~= parts);
    } else {
        let front = b.drop_last();
        assert forall|i: int| 0 <= i < front.len() implies front[i] != sep by {
            assert(b.contains(b[i]));
        }
        assert(!front.contains(sep));
        lemma_split_extended(a, front, sep);
        assert((a + b).drop_last() =~= a + front);
        assert((a + b).last() == b.last());
        assert(b.contains(b.last()));
        let before = split_at_char(a + front, sep);
        assert(before.drop_last() =~= parts.drop_last());
        assert((parts.last() + front).push(b.last()) =~= parts.last() + b);
    }
}

/// Splitting undoes joining where no part holds the separator.
pub proof fn splitting_undoes_joining(parts: Seq<Seq<char>>, sep: char)
    requires
        parts.len() > 0,
        forall|i: int| 0 <= i < parts.len() ==> !(#[trigger] parts[i]).contains(sep),
    ensures
        split_at_char(joined(parts, seq![sep]), sep) == parts,
    decreases parts.len(),
{
    if parts.len() == 1 {
        lemma_split_extended(Seq::empty(), parts[0], sep);
        assert(Seq::<char>::empty() + parts[0] =~= parts[0]);
        assert(split_at_char(parts[0], sep) =~= parts);
    } else {
        let front = parts.drop_last();
        assert forall|i: int| 0 <= i < front.len() implies !(#[trigger] front[i]).contains(sep) by {
            assert(front[i] == parts[i]);
        }
        splitting_undoes_joining(front, sep);
        let a = joined(front, seq![sep]);
        assert((a + seq![sep]).drop_last() =~= a);
        let cut = split_at_char(a + seq![sep], sep);
        assert(cut == front.push(Seq::empty()));
        assert(cut.drop_last() =~= front);
        assert(parts[parts.len() - 1] == parts.last());
        lemma_split_extended(a + seq![sep], parts.last(), sep);
        assert(Seq::<char>::empty() + parts.last() =~= parts.last());
        assert(front.push(parts.last()) =~= parts);
    }
}

/// The characters of a text that are no spaces.
pub open spec fn ink(s: Seq<char>) -> Seq<char> {
    s.filter(|c: char| !is_space(c))
}

pub(crate) proof fn lemma_ink_add(a: Seq<char>, b: Seq<char>)
    ensures
        ink(a + b) == ink(a) + ink(b),
{
    Seq::filter_distributes_over_add(a, b, |c: char| !is_space(c));
}

pub(crate) proof fn lemma_ink_push(s: Seq<char>, c: char)
    ensures
        ink(s.push(c)) == if is_space(c) {
            ink(s)
        } else {
            ink(s).push(c)
        },
{
    reveal(Seq::filter);
    assert(s.push(c).drop_last() =~= s);
}

pub(crate) proof fn lemma_ink_none(s: Seq<char>)
    requires
        forall|i: int| 0 <= i < s.len() ==> is_space(#[trigger] s[i]),
    ensures
        ink(s) == Seq::<char>::empty(),
    decreases s.len(),
{
    reveal(Seq::filter);
    if s.len() > 0 {
        let front = s.drop_last();
        assert forall|i: int| 0 <= i < front.len() implies is_space(#[trigger] front[i]) by {
            assert(front[i] == s[i]);
        }
        lemma_ink_none(front);
        assert(is_space(s[s.len() - 1]));
    }
}

pub(crate) proof fn lemma_ink_all(s: Seq<char>)
    requires
        forall|i: int| 0 <= i < s.len() ==> !is_space(#[trigger] s[i]),
    ensures
        ink(s) == s,
    decreases s.len(),
{
    reveal(Seq::filter);
    if s.len() > 0 {
        let front = s.drop_last();
        assert forall|i: int| 0 <= i < front.len() implies !is_space(#[trigger] front[i]) by {
            assert(front[i] == s[i]);
        }
        lemma_ink_all(front);
        assert(!is_space(s[s.len() - 1]));
        assert(front.push(s.last()) =~= s);
    } else {
        assert(ink(s) =~= s);
    }
}

proof fn lemma_leading_keeps_ink(s: Seq<char>)
    ensures
        ink(without_leading(s)) == ink(s),
    decreases s.len(),
{
    if s.len() > 0 && is_space(s[0]) {
        lemma_leading_keeps_ink(s.skip(1));
        assert(s =~= seq![s[0]] + s.skip(1));
        lemma_ink_add(seq![s[0]], s.skip(1));
        lemma_ink_none(seq![s[0]]);
        assert(Seq::<char>::empty() + ink(s.skip(1)) =~= ink(s.skip(1)));
    }
}

pub(crate) proof fn lemma_trailing_keeps_ink(s: Seq<char>)
    ensures
        ink(without_trailing(s)) == ink(s),
    decreases s.len(),
{
    if s.len() > 0 && is_space(s.last()) {
        lemma_trailing_keeps_ink(s.drop_last());
        lemma_ink_push(s.drop_last(), s.last());
        assert(s.drop_last().push(s.last()) =~= s);
    }
}

/// Trimming takes away spaces alone.
pub proof fn trimming_keeps_text(s: Seq<char>)
    ensures
        ink(trimmed(s)) == ink(s),
{
    lemma_leading_keeps_ink(s);
    lemma_trailing_keeps_ink(without_leading(s));
}

/// The spaces are those of every script: the control characters that move the place of writing,
/// the blank, and the blanks of fixed width, the one of Japanese among them. Letters, digits and
/// punctuation of ASCII are none.
pub proof fn spaces_are_those_of_every_script(c: char)
    ensures
        is_space(' ') && is_space('\t') && is_space('\n') && is_space('\r') && is_space('\u{c}')
            && is_space('\u{a0}') && is_space('\u{3000}'),
        '\u{2000}' <= c <= '\u{200a}' ==> is_space(c),
        '!' <= c <= '~' ==> !is_space(c),
        '\u{3001}' <= c ==> !is_space(c),
{
}

/// Joining links: the texts of two lists, joined, are the first ones joined, the separator and the
/// others joined; one text alone stays as it is.
pub proof fn joining_links(a: Seq<Seq<char>>, b: Seq<Seq<char>>, sep: Seq<char>)
    requires
        a.len() > 0,
        b.len() > 0,
    ensures
        joined(a + b, sep) == joined(a, sep) + sep + joined(b, sep),
        a.len() == 1 ==> joined(a, sep) == a[0],
    decreases b.len(),
{
    if b.len() == 1 {
        assert((a + b).drop_last() =~= a);
    } else {
        joining_links(a, b.drop_last(), sep);
        assert((a + b).drop_last() =~= a + b.drop_last());
        assert(joined(a + b, sep) =~= joined(a, sep) + sep + joined(b, sep));
    }
}

/// Joining undoes splitting, and no part holds the separator.
pub proof fn joining_undoes_splitting(s: Seq<char>, sep: char)
    ensures
        joined(split_at_char(s, sep), seq![sep]) == s,
        forall|i: int|
            0 <= i < split_at_char(s, sep).len() ==> !(#[trigger] split_at_char(
                s,
                sep,
            )[i]).contains(sep),
    decreases s.len(),
{
    let parts = split_at_char(s, sep);
    if s.len() == 0 {
        assert(joined(parts, seq![sep]) =~= s);
    } else {
        let front = split_at_char(s.drop_last(), sep);
        lemma_split_nonempty(s.drop_last(), sep);
        joining_undoes_splitting(s.drop_last(), sep);
        assert(s.drop_last().push(s.last()) =~= s);
        if s.last() == sep {
            assert(parts.drop_last() =~= front);
            assert(joined(parts, seq![sep]) =~= s);
            assert forall|i: int| 0 <= i < parts.len() implies !(#[trigger] parts[i]).contains(
                sep,
            ) by {
                if i < front.len() {
                    assert(parts[i] == front[i]);
                }
            }
        } else {
            let last = front.last().push(s.last());
            assert(parts == front.drop_last().push(last));
            assert(parts.drop_last() =~= front.drop_last());
            if front.len() == 1 {
                assert(joined(parts, seq![sep]) =~= s);
            } else {
                assert(joined(parts, seq![sep]) =~= s);
            }
            assert forall|i: int| 0 <= i < parts.len() implies !(#[trigger] parts[i]).contains(
                sep,
            ) by {
                if i < front.len() - 1 {
                    assert(parts[i] == front[i]);
                } else {
                    assert(!front[front.len() - 1].contains(sep));
                    assert forall|k: int| 0 <= k < last.len() implies last[k] != sep by {
                        if k < front.last().len() {
                            assert(front.last().contains(front.last()[k]));
                        }
                    }
                }
            }
        }
    }
}

/// The number that decimal digits stand for.
pub open spec fn digits_read(s: Seq<char>) -> int
    decreases s.len(),
{
    if s.len() == 0 {
        0
    } else {
        10 * digits_read(s.drop_last()) + (s.last() as int - '0' as int)
    }
}

/// A number reads back from its decimal digits, which hold nothing else and no zero in front that
/// is not the number itself.
pub proof fn digits_read_back(n: nat)
    ensures
        digits_read(decimal(n)) == n,
        decimal(n).len() > 0,
        forall|i: int| 0 <= i < decimal(n).len() ==> '0' <= #[trigger] decimal(n)[i] <= '9',
        n > 0 ==> decimal(n)[0] != '0',
        n == 0 ==> decimal(n) == seq!['0'],
    decreases n,
{
    reveal_with_fuel(digits_read, 2);
    if n >= 10 {
        digits_read_back(n / 10);
        assert(decimal(n).drop_last() =~= decimal(n / 10));
    } else {
        assert(decimal(n).drop_last() =~= Seq::empty());
    }
}

/// A text that is short enough stays as it is. Of another one the first characters stay, and an
/// ellipsis shows that there were more.
pub proof fn shortening_keeps_the_beginning(s: Seq<char>, max: nat)
    ensures
        s.len() <= max ==> shortened(s, max) == s,
        s.len() > max ==> shortened(s, max) == s.take(max as int) + seq!['…'],
{
    if s.len() > max {
        assert(shortened(s, max) =~= s.take(max as int) + seq!['…']);
    }
}

/// Texts in a list are seen one after another.
pub proof fn lists_are_seen_in_order(v: Seq<String>)
    ensures
        views(v).len() == v.len(),
        forall|i: int| 0 <= i < v.len() ==> #[trigger] views(v)[i] == v[i]@,
{
}

/// A negative number is written with a sign before its digits, and another one without.
pub proof fn signs_stand_before_digits(n: nat)
    ensures
        signed_decimal(n as int) == decimal(n),
        n > 0 ==> signed_decimal(-(n as int)) == seq!['-'] + decimal(n),
{
}

} // verus!
