//! The highlighted parts of a snippet.
use crate::text;
use vstd::prelude::*;
use vstd::string::StrSliceExecFns;

verus! {

/// What stands before a highlighted part of a snippet.
pub const HIGHLIGHT_PRE: &'static str = "<mark>";

/// What stands behind a highlighted part of a snippet.
pub const HIGHLIGHT_POST: &'static str = "</mark>";

/// The first place at or after `from` where `needle` stands in `s`, or -1.
pub open spec fn first_place(s: Seq<char>, needle: Seq<char>, from: int) -> int
    decreases s.len() - from + 1,
{
    if from > s.len() {
        -1
    } else if text::stands_at(s, needle, from) {
        from
    } else {
        first_place(s, needle, from + 1)
    }
}

proof fn lemma_first_place(s: Seq<char>, needle: Seq<char>, from: int)
    ensures
        first_place(s, needle, from) == -1 || (from <= first_place(s, needle, from)
            && text::stands_at(s, needle, first_place(s, needle, from))),
        forall|i: int|
            from <= i && (first_place(s, needle, from) == -1 || i < first_place(s, needle, from))
                ==> !text::stands_at(s, needle, i),
    decreases s.len() - from + 1,
{
    if from <= s.len() && !text::stands_at(s, needle, from) {
        lemma_first_place(s, needle, from + 1);
    }
}

proof fn lemma_first_place_is(s: Seq<char>, needle: Seq<char>, from: int, at: int)
    requires
        from <= at,
        text::stands_at(s, needle, at),
        forall|i: int| from <= i < at ==> !text::stands_at(s, needle, i),
    ensures
        first_place(s, needle, from) == at,
    decreases at - from,
{
    if from < at {
        lemma_first_place_is(s, needle, from + 1, at);
    }
}

proof fn lemma_no_place(s: Seq<char>, needle: Seq<char>, from: int)
    requires
        forall|i: int| from <= i ==> !text::stands_at(s, needle, i),
    ensures
        first_place(s, needle, from) == -1,
    decreases s.len() - from + 1,
{
    if from <= s.len() {
        lemma_no_place(s, needle, from + 1);
    }
}

pub open spec fn marker(highlighted: bool) -> Seq<char> {
    if highlighted {
        HIGHLIGHT_POST@
    } else {
        HIGHLIGHT_PRE@
    }
}

/// The parts of a snippet, each with whether it is highlighted. The parts change at the markers,
/// which are left out, and so are empty parts.
pub open spec fn segments(s: Seq<char>, highlighted: bool) -> Seq<(bool, Seq<char>)>
    decreases s.len(),
    via segments_end
{
    let at = first_place(s, marker(highlighted), 0);
    if at < 0 {
        if s.len() > 0 {
            seq![(highlighted, s)]
        } else {
            Seq::empty()
        }
    } else {
        let rest = segments(s.skip(at + marker(highlighted).len()), !highlighted);
        if at > 0 {
            seq![(highlighted, s.take(at))] + rest
        } else {
            rest
        }
    }
}

#[via_fn]
proof fn segments_end(s: Seq<char>, highlighted: bool) {
    reveal_strlit("<mark>");
    reveal_strlit("</mark>");
    lemma_first_place(s, marker(highlighted), 0);
}

pub open spec fn segment_views(parts: Seq<(bool, &str)>) -> Seq<(bool, Seq<char>)> {
    parts.map_values(|part: (bool, &str)| (part.0, part.1@))
}

/// Splits a snippet into the parts that are highlighted and those that are not.
pub fn snippet_segments<'a>(snippet: &'a str) -> (r: Vec<(bool, &'a str)>)
    ensures
        segment_views(r@) == segments(snippet@, false),
{
    let chars = text::characters(snippet);
    let pre = text::characters(HIGHLIGHT_PRE);
    let post = text::characters(HIGHLIGHT_POST);
    let mut out: Vec<(bool, &'a str)> = Vec::new();
    let mut start: usize = 0;
    let mut highlighted = false;
    proof {
        reveal_strlit("<mark>");
        reveal_strlit("</mark>");
        assert(snippet@.skip(0) =~= snippet@);
        assert(segment_views(out@) + segments(snippet@, false) =~= segments(snippet@, false));
    }
    loop
        invariant
            chars@ == snippet@,
            pre@ == marker(false),
            post@ == marker(true),
            pre@.len() > 0,
            post@.len() > 0,
            start <= chars@.len(),
            segment_views(out@) + segments(snippet@.skip(start as int), highlighted) == segments(
                snippet@,
                false,
            ),
        decreases chars@.len() - start,
    {
        let ghost rest = snippet@.skip(start as int);
        let ghost done = segment_views(out@);
        let needle = if highlighted {
            &post
        } else {
            &pre
        };
        match text::find_from(chars.as_slice(), needle.as_slice(), start) {
            Some(i) => {
                let ghost at = i - start;
                let count = chars.len();
                assert(i + needle@.len() <= count);
                proof {
                    assert(rest.subrange(at, at + needle@.len()) =~= snippet@.subrange(
                        i as int,
                        i + needle@.len(),
                    ));
                    assert forall|j: int| 0 <= j < at implies !text::stands_at(
                        rest,
                        needle@,
                        j,
                    ) by {
                        if text::stands_at(rest, needle@, j) {
                            assert(rest.subrange(j, j + needle@.len()) =~= snippet@.subrange(
                                start + j,
                                start + j + needle@.len(),
                            ));
                            assert(text::stands_at(snippet@, needle@, start + j));
                        }
                    }
                    lemma_first_place_is(rest, needle@, 0, at);
                    assert(rest.skip(at + needle@.len()) =~= snippet@.skip(i + needle@.len()));
                }
                if i > start {
                    let part = snippet.substring_char(start, i);
                    out.push((highlighted, part));
                    proof {
                        assert(part@ =~= rest.take(at));
                        assert(segment_views(out@) =~= done.push((highlighted, rest.take(at))));
                        let tail = segments(snippet@.skip(i + needle@.len()), !highlighted);
                        assert(done + (seq![(highlighted, rest.take(at))] + tail)
                            =~= segment_views(out@) + tail);
                    }
                }
                start = i + needle.len();
                highlighted = !highlighted;
            },
            None => {
                proof {
                    assert forall|j: int| 0 <= j implies !text::stands_at(rest, needle@, j) by {
                        if text::stands_at(rest, needle@, j) {
                            assert(rest.subrange(j, j + needle@.len()) =~= snippet@.subrange(
                                start + j,
                                start + j + needle@.len(),
                            ));
                            assert(text::stands_at(snippet@, needle@, start + j));
                        }
                    }
                    lemma_no_place(rest, needle@, 0);
                }
                if start < chars.len() {
                    let part = snippet.substring_char(start, chars.len());
                    out.push((highlighted, part));
                    assert(part@ =~= rest);
                    assert(segment_views(out@) =~= done + seq![(highlighted, rest)]);
                } else {
                    assert(segment_views(out@) =~= done + Seq::empty());
                }
                return out;
            },
        }
    }
}

/// A part of a snippet as it is marked.
pub open spec fn part_marked(part: (bool, Seq<char>)) -> Seq<char> {
    if part.0 {
        HIGHLIGHT_PRE@ + part.1 + HIGHLIGHT_POST@
    } else {
        part.1
    }
}

/// A snippet made of parts.
pub open spec fn parts_marked(parts: Seq<(bool, Seq<char>)>) -> Seq<char>
    decreases parts.len(),
{
    if parts.len() == 0 {
        Seq::empty()
    } else {
        part_marked(parts[0]) + parts_marked(parts.skip(1))
    }
}

/// Whether parts can be told apart: none is empty, of two neighbours one at least is highlighted,
/// and none holds the marker that would end it.
pub open spec fn can_be_told_apart(parts: Seq<(bool, Seq<char>)>) -> bool {
    &&& forall|i: int|
        0 <= i < parts.len() ==> (#[trigger] parts[i]).1.len() > 0 && !text::holds_text(
            parts[i].1,
            marker(parts[i].0),
        )
    &&& forall|i: int| 0 < i < parts.len() ==> (#[trigger] parts[i]).0 || parts[i - 1].0
}

/// A marker cannot begin inside a text that does not hold it, though the same or the other marker
/// follows the text.
proof fn lemma_first_behind(t: Seq<char>, highlighted: bool, rest: Seq<char>)
    requires
        !text::holds_text(t, marker(highlighted)),
    ensures
        first_place(t + marker(highlighted) + rest, marker(highlighted), 0) == t.len(),
{
    reveal_strlit("<mark>");
    reveal_strlit("</mark>");
    let m = marker(highlighted);
    let s = t + m + rest;
    assert(s.subrange(t.len() as int, (t.len() + m.len()) as int) =~= m);
    assert forall|i: int| 0 <= i < t.len() implies !text::stands_at(s, m, i) by {
        if text::stands_at(s, m, i) {
            if i + m.len() <= t.len() {
                assert(t.subrange(i, i + m.len()) =~= s.subrange(i, i + m.len()));
                assert(text::stands_at(t, m, i));
            } else {
                let k = t.len() - i;
                assert(s.subrange(i, i + m.len())[k] == s[t.len() as int]);
                assert(s[t.len() as int] == m[0]);
                assert(m[k] == m[0]);
            }
        }
    }
    lemma_first_place_is(s, m, 0, t.len() as int);
}

proof fn lemma_absent(t: Seq<char>, highlighted: bool)
    requires
        !text::holds_text(t, marker(highlighted)),
    ensures
        first_place(t, marker(highlighted), 0) == -1,
{
    assert forall|i: int| 0 <= i implies !text::stands_at(t, marker(highlighted), i) by {}
    lemma_no_place(t, marker(highlighted), 0);
}

/// Splitting a snippet gives back the parts from which it was made.
pub proof fn marked_parts_come_back(parts: Seq<(bool, Seq<char>)>)
    requires
        can_be_told_apart(parts),
    ensures
        segments(parts_marked(parts), false) == parts,
    decreases parts.len(),
{
    reveal_strlit("<mark>");
    reveal_strlit("</mark>");
    if parts.len() == 0 {
        assert(!text::holds_text(Seq::<char>::empty(), marker(false)));
        lemma_absent(Seq::empty(), false);
        assert(segments(parts_marked(parts), false) =~= parts);
    } else {
        let first = parts[0];
        let rest = parts.skip(1);
        assert forall|i: int| 0 <= i < rest.len() implies (#[trigger] rest[i]).1.len() > 0
            && !text::holds_text(rest[i].1, marker(rest[i].0)) by {
            assert(rest[i] == parts[i + 1]);
        }
        assert forall|i: int| 0 < i < rest.len() implies (#[trigger] rest[i]).0 || rest[i
            - 1].0 by {
            assert(rest[i] == parts[i + 1]);
            assert(rest[i - 1] == parts[i]);
        }
        marked_parts_come_back(rest);
        let tail = parts_marked(rest);
        let whole = parts_marked(parts);
        if first.0 {
            let pre = marker(false);
            let post = marker(true);
            assert(whole =~= Seq::<char>::empty() + pre + (first.1 + post + tail));
            assert(!text::holds_text(Seq::<char>::empty(), pre));
            lemma_first_behind(Seq::empty(), false, first.1 + post + tail);
            let inner = whole.skip(pre.len() as int);
            assert(inner =~= first.1 + post + tail);
            lemma_first_behind(first.1, true, tail);
            assert(inner.skip((first.1.len() + post.len()) as int) =~= tail);
            assert(inner.take(first.1.len() as int) =~= first.1);
            assert(segments(inner, true) == seq![first] + rest);
        } else if rest.len() == 0 {
            assert(tail =~= Seq::empty());
            assert(whole =~= first.1);
            lemma_absent(first.1, false);
        } else {
            let pre = marker(false);
            assert(rest[0] == parts[1]);
            assert(rest[0].0);
            let post = marker(true);
            let behind = rest[0].1 + post + parts_marked(rest.skip(1));
            assert(tail =~= pre + behind);
            assert(whole =~= first.1 + pre + behind);
            lemma_first_behind(first.1, false, behind);
            assert(whole.take(first.1.len() as int) =~= first.1);
            assert(whole.skip((first.1.len() + pre.len()) as int) =~= behind);
            assert(!text::holds_text(Seq::<char>::empty(), pre));
            lemma_first_behind(Seq::empty(), false, behind);
            assert(Seq::<char>::empty() + pre + behind =~= tail);
            assert(tail.skip(pre.len() as int) =~= behind);
            assert(segments(tail, false) == segments(behind, true));
        }
        assert(seq![first] + rest =~= parts);
    }
}

proof fn lemma_segments(s: Seq<char>, highlighted: bool)
    ensures
        forall|i: int|
            0 <= i < segments(s, highlighted).len() ==> (#[trigger] segments(s, highlighted)[i]).1.len()
                > 0 && !text::holds_text(
                segments(s, highlighted)[i].1,
                marker(segments(s, highlighted)[i].0),
            ),
    decreases s.len(),
{
    reveal_strlit("<mark>");
    reveal_strlit("</mark>");
    let m = marker(highlighted);
    let at = first_place(s, m, 0);
    lemma_first_place(s, m, 0);
    let all = segments(s, highlighted);
    if at < 0 {
        if text::holds_text(s, m) {
            let i = choose|i: int| text::stands_at(s, m, i);
            assert(!text::stands_at(s, m, i));
        }
    } else {
        let tail = s.skip(at + m.len());
        lemma_segments(tail, !highlighted);
        let rest = segments(tail, !highlighted);
        if at > 0 {
            let head = s.take(at);
            if text::holds_text(head, m) {
                let i = choose|i: int| text::stands_at(head, m, i);
                assert(head.subrange(i, i + m.len()) =~= s.subrange(i, i + m.len()));
                assert(text::stands_at(s, m, i));
            }
            assert forall|i: int| 0 <= i < all.len() implies (#[trigger] all[i]).1.len() > 0
                && !text::holds_text(all[i].1, marker(all[i].0)) by {
                if i > 0 {
                    assert(all[i] == rest[i - 1]);
                }
            }
        }
    }
}

/// No part of a snippet is empty or holds the marker that would end it.
pub proof fn parts_hold_no_markers(s: Seq<char>, i: int)
    requires
        0 <= i < segments(s, false).len(),
    ensures
        segments(s, false)[i].1.len() > 0,
        !text::holds_text(segments(s, false)[i].1, marker(segments(s, false)[i].0)),
{
    lemma_segments(s, false);
}

} // verus!
