//! Joining pieces of text: lines that were wrapped, words that were set apart.
use crate::text;
use vstd::prelude::*;
use vstd::string::StrSliceExecFns;
use vstd::string::StringExecFns;

verus! {

/// `String::pop`: takes the last character away and returns it, or returns nothing where there is
/// none.
pub assume_specification[ String::pop ](s: &mut String) -> (r: Option<char>)
    ensures
        old(s)@.len() == 0 ==> r is None && final(s)@ == old(s)@,
        old(s)@.len() > 0 ==> r == Some(old(s)@.last()) && final(s)@ == old(s)@.drop_last(),
;

/// The characters of Chinese and Japanese, with their punctuation and full-width forms.
pub open spec fn is_cjk_char(c: char) -> bool {
    ||| '\u{3000}' <= c <= '\u{303f}'
    ||| '\u{3040}' <= c <= '\u{30ff}'
    ||| '\u{3400}' <= c <= '\u{9fff}'
    ||| '\u{f900}' <= c <= '\u{faff}'
    ||| '\u{ff00}' <= c <= '\u{ffef}'
}

pub fn is_cjk(c: char) -> (r: bool)
    ensures
        r == is_cjk_char(c),
{
    ('\u{3000}' <= c && c <= '\u{303f}') || ('\u{3040}' <= c && c <= '\u{30ff}') || ('\u{3400}' <= c
        && c <= '\u{9fff}') || ('\u{f900}' <= c && c <= '\u{faff}') || ('\u{ff00}' <= c && c
        <= '\u{ffef}')
}

pub open spec fn is_latin_letter(c: char) -> bool {
    'a' <= c <= 'z' || 'A' <= c <= 'Z'
}

/// The punctuation that follows a word without a space.
pub open spec fn closes(c: char) -> bool {
    c == ',' || c == '.' || c == ';' || c == ':' || c == '!' || c == '?' || c == ')' || c == ']' || c
        == '}' || c == '%'
}

/// The punctuation that a word follows without a space.
pub open spec fn opens(c: char) -> bool {
    c == '(' || c == '[' || c == '{' || c == '"' || c == '\''
}

/// Whether a space belongs between two characters that were set apart.
pub open spec fn needs_space(left: char, right: char) -> bool {
    !text::is_space(left) && !text::is_space(right) && !is_cjk_char(left) && !is_cjk_char(right)
        && !closes(right) && !opens(left)
}

pub fn should_insert_space(left: Option<char>, right: Option<char>) -> (r: bool)
    ensures
        r == match (left, right) {
            (Some(left), Some(right)) => needs_space(left, right),
            _ => false,
        },
{
    match (left, right) {
        (Some(left), Some(right)) => {
            if text::is_whitespace(left) || text::is_whitespace(right) {
                return false;
            }
            if is_cjk(left) || is_cjk(right) {
                return false;
            }
            if right == ',' || right == '.' || right == ';' || right == ':' || right == '!' || right
                == '?' || right == ')' || right == ']' || right == '}' || right == '%' {
                return false;
            }
            if left == '(' || left == '[' || left == '{' || left == '"' || left == '\'' {
                return false;
            }
            true
        },
        _ => false,
    }
}

/// A text with a fragment joined to its end: a hyphen before a Latin letter is taken for a word
/// that was divided, and a space is set where the two sides need one.
pub open spec fn appended(out: Seq<char>, part: Seq<char>) -> Seq<char> {
    let part = text::trimmed(part);
    let left = text::without_trailing(out);
    if part.len() == 0 {
        out
    } else if left.len() == 0 {
        part
    } else if left.last() == '-' && is_latin_letter(part[0]) {
        left.drop_last() + part
    } else if needs_space(left.last(), part[0]) {
        left.push(' ') + part
    } else {
        left + part
    }
}

pub fn append_fragment(out: &mut String, part: &str)
    ensures
        final(out)@ == appended(old(out)@, part@),
{
    let part = text::trim(part);
    if part.is_empty() {
        return;
    }
    if out.as_str().is_empty() {
        out.append(part);
        assert(out@ =~= part@);
        return;
    }
    let mut left: Option<char> = out.pop();
    assert(old(out)@.drop_last().push(old(out)@.last()) =~= old(out)@);
    while left.is_some() && text::is_whitespace(left.unwrap())
        invariant
            left is None ==> out@.len() == 0 && text::without_trailing(old(out)@).len() == 0,
            left matches Some(c) ==> text::without_trailing(out@.push(c)) == text::without_trailing(
                old(out)@,
            ),
        decreases out@.len() + if left is Some {
            1int
        } else {
            0int
        },
    {
        let ghost before = out@;
        let ghost c = left.unwrap();
        left = out.pop();
        proof {
            assert(before.push(c).drop_last() =~= before);
            assert(text::without_trailing(before.push(c)) == text::without_trailing(before));
            if before.len() > 0 {
                assert(before.drop_last().push(before.last()) =~= before);
            }
        }
    }
    match left {
        None => {
            out.append(part);
            assert(out@ =~= part@);
        },
        Some(last) => {
            let ghost stem = out@;
            let first = part.get_char(0);
            proof {
                assert(stem.push(last).drop_last() =~= stem);
                assert(text::without_trailing(old(out)@) == stem.push(last));
            }
            if last == '-' && (('a' <= first && first <= 'z') || ('A' <= first && first <= 'Z')) {
                out.append(part);
            } else {
                out.push(last);
                if should_insert_space(Some(last), Some(first)) {
                    out.push(' ');
                }
                out.append(part);
            }
        },
    }
}

/// Fragments joined one after another.
pub open spec fn all_joined(parts: Seq<Seq<char>>) -> Seq<char>
    decreases parts.len(),
{
    if parts.len() == 0 {
        Seq::empty()
    } else {
        appended(all_joined(parts.drop_last()), parts.last())
    }
}

pub fn join_fragments(parts: &[String]) -> (r: String)
    ensures
        r@ == all_joined(text::views(parts@)),
{
    let mut out = String::new();
    for i in 0..parts.len()
        invariant
            out@ == all_joined(text::views(parts@).take(i as int)),
    {
        proof {
            let v = text::views(parts@);
            assert(v.take(i + 1).drop_last() =~= v.take(i as int));
            assert(v.take(i + 1).last() == parts@[i as int]@);
        }
        append_fragment(&mut out, parts[i].as_str());
    }
    assert(text::views(parts@).take(parts@.len() as int) =~= text::views(parts@));
    out
}

/// A text with every run of spaces made one space, and none at its beginning.
pub open spec fn collapsed(s: Seq<char>) -> Seq<char>
    decreases s.len(),
{
    if s.len() == 0 {
        Seq::empty()
    } else {
        let out = collapsed(s.drop_last());
        if !text::is_space(s.last()) {
            out.push(s.last())
        } else if out.len() > 0 && out.last() != ' ' {
            out.push(' ')
        } else {
            out
        }
    }
}

pub fn collapse_inline_ws(text: &str) -> (r: String)
    ensures
        r@ == collapsed(text@),
{
    let chars = text::characters(text);
    let mut out = String::new();
    let mut after_space = true;
    for i in 0..chars.len()
        invariant
            chars@ == text@,
            out@ == collapsed(chars@.take(i as int)),
            after_space == (out@.len() == 0 || out@.last() == ' '),
    {
        let c = chars[i];
        proof {
            assert(chars@.take(i + 1).drop_last() =~= chars@.take(i as int));
        }
        if text::is_whitespace(c) {
            if !after_space {
                out.push(' ');
                after_space = true;
            }
        } else {
            out.push(c);
            after_space = false;
        }
    }
    assert(chars@.take(chars@.len() as int) =~= chars@);
    out
}

/// A collapsed text holds no space but the blank, never two in a row and none in front, so that
/// collapsing it again changes nothing.
pub proof fn collapsing_is_stable(s: Seq<char>)
    ensures
        collapsed(s).len() > 0 ==> !text::is_space(collapsed(s)[0]),
        forall|i: int|
            0 <= i < collapsed(s).len() && text::is_space(#[trigger] collapsed(s)[i])
                ==> collapsed(s)[i] == ' ' && i > 0 && !text::is_space(collapsed(s)[i - 1]),
        collapsed(collapsed(s)) == collapsed(s),
    decreases s.len(),
{
    if s.len() > 0 {
        collapsing_is_stable(s.drop_last());
        let out = collapsed(s.drop_last());
        let r = collapsed(s);
        if r.len() > out.len() {
            assert(r.drop_last() =~= out);
        }
    }
}

/// Joining keeps the characters of the first fragment that are no spaces at its end, except for a
/// dividing hyphen, and ends in the second fragment.
pub proof fn joining_keeps_both_sides(out: Seq<char>, part: Seq<char>)
    requires
        text::trimmed(part).len() > 0,
    ensures
        text::trimmed(part).is_suffix_of(appended(out, part)),
        text::without_trailing(out).len() > 0 && text::without_trailing(out).last() != '-'
            ==> text::without_trailing(out).is_prefix_of(appended(out, part)),
{
    let p = text::trimmed(part);
    let r = appended(out, part);
    assert(r.subrange(r.len() - p.len(), r.len() as int) =~= p);
    let left = text::without_trailing(out);
    if left.len() > 0 && left.last() != '-' {
        assert(out.len() > 0);
        assert(r.subrange(0, left.len() as int) =~= left);
    }
}

/// Collapsing changes spaces alone.
pub proof fn collapsing_keeps_text(s: Seq<char>)
    ensures
        text::ink(collapsed(s)) == text::ink(s),
    decreases s.len(),
{
    if s.len() == 0 {
        assert(collapsed(s) =~= s);
    } else {
        collapsing_keeps_text(s.drop_last());
        let out = collapsed(s.drop_last());
        assert(s.drop_last().push(s.last()) =~= s);
        text::lemma_ink_push(s.drop_last(), s.last());
        text::lemma_ink_push(out, s.last());
        text::lemma_ink_push(out, ' ');
    }
}

proof fn lemma_collapsed_word(a: Seq<char>)
    requires
        a.len() > 0,
        !text::is_space(a.last()),
    ensures
        collapsed(a).len() > 0,
        collapsed(a).last() == a.last(),
{
}

proof fn lemma_collapsed_space(a: Seq<char>, gap: Seq<char>)
    requires
        a.len() > 0,
        !text::is_space(a.last()),
        gap.len() > 0,
        forall|i: int| 0 <= i < gap.len() ==> text::is_space(#[trigger] gap[i]),
    ensures
        collapsed(a + gap) == collapsed(a).push(' '),
    decreases gap.len(),
{
    lemma_collapsed_word(a);
    assert((a + gap).drop_last() =~= a + gap.drop_last());
    assert(text::is_space(gap[gap.len() - 1]));
    if gap.len() > 1 {
        let front = gap.drop_last();
        assert forall|i: int| 0 <= i < front.len() implies text::is_space(#[trigger] front[i]) by {
            assert(front[i] == gap[i]);
        }
        lemma_collapsed_space(a, front);
    } else {
        assert(a + gap.drop_last() =~= a);
    }
}

/// Words that spaces set apart stay apart, by one blank.
pub proof fn collapsed_words_stay_apart(a: Seq<char>, gap: Seq<char>, b: Seq<char>)
    requires
        a.len() > 0,
        !text::is_space(a.last()),
        gap.len() > 0,
        forall|i: int| 0 <= i < gap.len() ==> text::is_space(#[trigger] gap[i]),
        b.len() > 0 ==> !text::is_space(b[0]),
    ensures
        collapsed(a + gap + b) == collapsed(a) + seq![' '] + collapsed(b),
    decreases b.len(),
{
    lemma_collapsed_space(a, gap);
    if b.len() == 0 {
        assert(a + gap + b =~= a + gap);
        assert(collapsed(a) + seq![' '] + collapsed(b) =~= collapsed(a).push(' '));
    } else {
        collapsed_words_stay_apart(a, gap, b.drop_last());
        assert((a + gap + b).drop_last() =~= a + gap + b.drop_last());
        assert((a + gap + b).last() == b.last());
        let before = collapsed(a + gap + b.drop_last());
        assert(before == collapsed(a) + seq![' '] + collapsed(b.drop_last()));
        if b.len() == 1 {
            assert(b.last() == b[0]);
            assert(collapsed(b.drop_last()) =~= Seq::empty());
        } else {
            lemma_collapsed_begins(b.drop_last());
            assert(before.last() == collapsed(b.drop_last()).last());
        }
        assert(collapsed(a + gap + b) =~= collapsed(a) + seq![' '] + collapsed(b));
    }
}

proof fn lemma_collapsed_begins(b: Seq<char>)
    requires
        b.len() > 0,
        !text::is_space(b[0]),
    ensures
        collapsed(b).len() > 0,
    decreases b.len(),
{
    if b.len() > 1 {
        lemma_collapsed_begins(b.drop_last());
    }
}

/// A text without spaces stays as it is.
pub proof fn collapsing_keeps_words(s: Seq<char>)
    requires
        forall|i: int| 0 <= i < s.len() ==> !text::is_space(#[trigger] s[i]),
    ensures
        collapsed(s) == s,
    decreases s.len(),
{
    if s.len() > 0 {
        let front = s.drop_last();
        assert forall|i: int| 0 <= i < front.len() implies !text::is_space(#[trigger] front[i]) by {
            assert(front[i] == s[i]);
        }
        collapsing_keeps_words(front);
        assert(!text::is_space(s[s.len() - 1]));
        assert(front.push(s.last()) =~= s);
    } else {
        assert(collapsed(s) =~= s);
    }
}

/// Whether a word ends in a hyphen at the end of one text and goes on with a Latin letter at the
/// beginning of the next.
pub open spec fn is_divided(a: Seq<char>, b: Seq<char>) -> bool {
    &&& a.len() > 0 && a.last() == '-'
    &&& b.len() > 0 && ('a' <= b[0] <= 'z' || 'A' <= b[0] <= 'Z')
}

proof fn lemma_ink_ends(s: Seq<char>)
    ensures
        text::without_trailing(s).len() == 0 <==> text::ink(s).len() == 0,
        text::ink(s).len() > 0 ==> text::without_trailing(s).last() == text::ink(s).last(),
    decreases s.len(),
{
    reveal(Seq::filter);
    if s.len() > 0 {
        lemma_ink_ends(s.drop_last());
    }
}

proof fn lemma_ink_begins(s: Seq<char>)
    requires
        s.len() > 0,
        !text::is_space(s[0]),
    ensures
        text::ink(s).len() > 0,
        text::ink(s)[0] == s[0],
{
    assert(s =~= seq![s[0]] + s.skip(1));
    text::lemma_ink_add(seq![s[0]], s.skip(1));
    text::lemma_ink_all(seq![s[0]]);
}

/// Joining two texts keeps every character that is no space, in its order, but for the hyphen of a
/// word that was divided between them.
pub proof fn joining_keeps_text(a: Seq<char>, b: Seq<char>)
    ensures
        text::ink(appended(a, b)) == if is_divided(text::ink(a), text::ink(b)) {
            text::ink(a).drop_last() + text::ink(b)
        } else {
            text::ink(a) + text::ink(b)
        },
{
    let part = text::trimmed(b);
    let left = text::without_trailing(a);
    text::trimming_keeps_text(b);
    text::trimming_cuts_both_ends(b);
    text::lemma_trailing_keeps_ink(a);
    lemma_ink_ends(a);
    if part.len() == 0 {
        text::lemma_blank(b);
        text::lemma_ink_none(b);
        assert(text::ink(a) + text::ink(b) =~= text::ink(a));
    } else {
        lemma_ink_begins(part);
        if left.len() == 0 {
            assert(text::ink(a) + text::ink(b) =~= text::ink(b));
        } else if left.last() == '-' && is_latin_letter(part[0]) {
            text::lemma_ink_add(left.drop_last(), part);
            text::lemma_ink_push(left.drop_last(), left.last());
            assert(left.drop_last().push(left.last()) =~= left);
            assert(text::ink(left).drop_last() =~= text::ink(left.drop_last()));
        } else {
            text::lemma_ink_push(left, ' ');
            text::lemma_ink_add(left.push(' '), part);
            text::lemma_ink_add(left, part);
        }
    }
}

/// What separates two texts where they are joined: a blank between words, nothing where a word was
/// divided, before punctuation that closes, behind punctuation that opens, and beside a character
/// of Chinese or Japanese.
pub proof fn joining_sets_words_apart(a: Seq<char>, b: Seq<char>)
    requires
        a.len() > 0 && !text::is_space(a.last()),
        b.len() > 0 && !text::is_space(b[0]) && !text::is_space(b.last()),
    ensures
        ({
            let left = a.last();
            let right = b[0];
            &&& is_divided(a, b) ==> appended(a, b) == a.drop_last() + b
            &&& !is_divided(a, b) && ((seq![',', '.', ';', ':', '!', '?', ')', ']', '}', '%'].contains(right))
                || (seq!['(', '[', '{', '"', '\''].contains(left))) ==> appended(a, b) == a + b
            &&& ('\u{3000}' <= left <= '\u{30ff}' || '\u{3400}' <= left <= '\u{9fff}' || '\u{f900}'
                <= left <= '\u{faff}' || '\u{ff00}' <= left <= '\u{ffef}') ==> appended(a, b) == a + b
            &&& !is_divided(a, b) && ('\u{3000}' <= right <= '\u{30ff}' || '\u{3400}' <= right
                <= '\u{9fff}' || '\u{f900}' <= right <= '\u{faff}' || '\u{ff00}' <= right
                <= '\u{ffef}') ==> appended(a, b) == a + b
            &&& !is_divided(a, b) && !('\u{3000}' <= left <= '\u{30ff}' || '\u{3400}' <= left
                <= '\u{9fff}' || '\u{f900}' <= left <= '\u{faff}' || '\u{ff00}' <= left
                <= '\u{ffef}') && !('\u{3000}' <= right <= '\u{30ff}' || '\u{3400}' <= right
                <= '\u{9fff}' || '\u{f900}' <= right <= '\u{faff}' || '\u{ff00}' <= right
                <= '\u{ffef}') && !(seq![
                ',',
                '.',
                ';',
                ':',
                '!',
                '?',
                ')',
                ']',
                '}',
                '%',
            ].contains(right)) && !(seq!['(', '[', '{', '"', '\''].contains(left)) ==> appended(a, b)
                == a + seq![' '] + b
        }),
{
    text::lemma_trimmed(b, 0, b.len() as int);
    assert(b.subrange(0, b.len() as int) =~= b);
    let closing = seq![',', '.', ';', ':', '!', '?', ')', ']', '}', '%'];
    let opening = seq!['(', '[', '{', '"', '\''];
    let right = b[0];
    let left = a.last();
    if closes(right) {
        assert(closing[0] == ',' && closing[1] == '.' && closing[2] == ';' && closing[3] == ':'
            && closing[4] == '!' && closing[5] == '?' && closing[6] == ')' && closing[7] == ']'
            && closing[8] == '}' && closing[9] == '%');
        assert(closing.contains(right));
    }
    if opens(left) {
        assert(opening[0] == '(' && opening[1] == '[' && opening[2] == '{' && opening[3] == '"'
            && opening[4] == '\'');
        assert(opening.contains(left));
    }
    assert(a.push(' ') =~= a + seq![' ']);
}

proof fn lemma_joined_empty(a: Seq<char>)
    ensures
        appended(Seq::empty(), a) == text::trimmed(a),
{
    assert(text::without_trailing(Seq::<char>::empty()) =~= Seq::empty());
    if text::trimmed(a).len() == 0 {
        assert(text::trimmed(a) =~= Seq::empty());
    }
}

/// Joining begins with the first text and goes on with one text after another; blank ones change
/// nothing.
pub proof fn joining_goes_on(parts: Seq<Seq<char>>, part: Seq<char>)
    ensures
        all_joined(seq![part]) == text::trimmed(part),
        all_joined(parts.push(part)) == appended(all_joined(parts), part),
        text::trimmed(part).len() == 0 ==> all_joined(parts.push(part)) == all_joined(parts),
{
    reveal_with_fuel(all_joined, 2);
    assert(seq![part].drop_last() =~= Seq::empty());
    assert(parts.push(part).drop_last() =~= parts);
    lemma_joined_empty(part);
}

/// The characters of a text that are neither spaces nor hyphens.
pub open spec fn letters(s: Seq<char>) -> Seq<char> {
    text::ink(s).filter(|c: char| c != '-')
}

pub(crate) proof fn lemma_letters_joined(a: Seq<char>, b: Seq<char>)
    ensures
        letters(appended(a, b)) == letters(a) + letters(b),
{
    let p = |c: char| c != '-';
    joining_keeps_text(a, b);
    let x = text::ink(a);
    let y = text::ink(b);
    Seq::filter_distributes_over_add(x, y, p);
    if is_divided(x, y) {
        Seq::filter_distributes_over_add(x.drop_last(), y, p);
        reveal(Seq::filter);
        assert(x.filter(p) == x.drop_last().filter(p));
    }
}

} // verus!
