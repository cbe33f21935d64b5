//! What holds of the text helpers, character by character.

use crate::component::{is_valid_component, is_valid_disk_name};
use crate::text::{
    is_white_space, join, lemma_split_first, lemma_split_len, lemma_split_none, lines, occurs, split,
    trim_end, trim_start, trimmed, utf8, without_cr,
};
use vstd::prelude::*;

verus! {

/// Whether a text is nothing but white space.
pub open spec fn is_blank(s: Seq<char>) -> bool {
    forall|i: int| 0 <= i < s.len() ==> is_white_space(#[trigger] s[i])
}

/// The code points that Unicode gives the property White_Space, as ranges, in
/// ascending order.
pub open spec fn white_ranges() -> Seq<(u32, u32)> {
    seq![
        (0x9u32, 0xdu32),
        (0x20, 0x20),
        (0x85, 0x85),
        (0xa0, 0xa0),
        (0x1680, 0x1680),
        (0x2000, 0x200a),
        (0x2028, 0x2029),
        (0x202f, 0x202f),
        (0x205f, 0x205f),
        (0x3000, 0x3000),
    ]
}

/// A character is white space exactly if its code point lies in one of the
/// ranges; of the ASCII characters exactly the blank, the tab, the line feed, the
/// vertical tab, the form feed and the carriage return are.
pub proof fn law_white_space(c: char)
    ensures
        is_white_space(c) <==> exists|i: int|
            0 <= i < white_ranges().len() && (#[trigger] white_ranges()[i]).0 <= c as u32
                <= white_ranges()[i].1,
        (c as u32) < 0x80 ==> (is_white_space(c) <==> c == ' ' || 9 <= c as u32 <= 13),
{
    let r = white_ranges();
    assert(r[0] == (0x9u32, 0xdu32) && r[1] == (0x20u32, 0x20u32) && r[2] == (0x85u32, 0x85u32)
        && r[3] == (0xa0u32, 0xa0u32) && r[4] == (0x1680u32, 0x1680u32));
    assert(r[5] == (0x2000u32, 0x200au32) && r[6] == (0x2028u32, 0x2029u32) && r[7] == (
        0x202fu32,
        0x202fu32,
    ) && r[8] == (0x205fu32, 0x205fu32) && r[9] == (0x3000u32, 0x3000u32));
}

proof fn lemma_trim_start(s: Seq<char>) -> (front: Seq<char>)
    ensures
        s == front + trim_start(s),
        is_blank(front),
        trim_start(s).len() > 0 ==> !is_white_space(trim_start(s)[0]),
    decreases s.len(),
{
    if s.len() > 0 && is_white_space(s[0]) {
        let rest = lemma_trim_start(s.drop_first());
        let front = seq![s[0]] + rest;
        assert(s.drop_first() == rest + trim_start(s));
        assert(s =~= seq![s[0]] + (rest + trim_start(s)));
        assert(s =~= front + trim_start(s));
        front
    } else {
        assert(s =~= Seq::<char>::empty() + s);
        Seq::empty()
    }
}

proof fn lemma_trim_end(s: Seq<char>) -> (back: Seq<char>)
    ensures
        s == trim_end(s) + back,
        is_blank(back),
        trim_end(s).len() > 0 ==> !is_white_space(trim_end(s).last()) && trim_end(s)[0] == s[0],
    decreases s.len(),
{
    if s.len() > 0 && is_white_space(s.last()) {
        let rest = lemma_trim_end(s.drop_last());
        let back = rest.push(s.last());
        assert(s.drop_last() == trim_end(s) + rest);
        assert(s =~= (trim_end(s) + rest).push(s.last()));
        assert(s =~= trim_end(s) + back);
        back
    } else {
        assert(s =~= s + Seq::<char>::empty());
        Seq::empty()
    }
}

/// Trimming takes away white space at both ends and nothing else, and leaves
/// none at either end.
pub proof fn law_trim(s: Seq<char>) -> (r: (Seq<char>, Seq<char>))
    ensures
        s == r.0 + trimmed(s) + r.1,
        is_blank(r.0),
        is_blank(r.1),
        trimmed(s).len() > 0 ==> !is_white_space(trimmed(s)[0]) && !is_white_space(
            trimmed(s).last(),
        ),
{
    let front = lemma_trim_start(s);
    let back = lemma_trim_end(trim_start(s));
    assert(s =~= front + trimmed(s) + back);
    (front, back)
}

proof fn lemma_trim_start_blank(front: Seq<char>, t: Seq<char>)
    requires
        is_blank(front),
        t.len() > 0 ==> !is_white_space(t[0]),
    ensures
        trim_start(front + t) == t,
    decreases front.len(),
{
    if front.len() > 0 {
        let rest = front.drop_first();
        assert forall|i: int| 0 <= i < rest.len() implies is_white_space(#[trigger] rest[i]) by {
            assert(is_white_space(front[i + 1]));
        }
        assert(is_white_space(front[0]));
        assert((front + t).drop_first() =~= rest + t);
        lemma_trim_start_blank(rest, t);
    } else {
        assert(front + t =~= t);
    }
}

proof fn lemma_trim_end_blank(t: Seq<char>, back: Seq<char>)
    requires
        is_blank(back),
        t.len() > 0 ==> !is_white_space(t.last()),
    ensures
        trim_end(t + back) == t,
    decreases back.len(),
{
    if back.len() > 0 {
        let rest = back.drop_last();
        assert forall|i: int| 0 <= i < rest.len() implies is_white_space(#[trigger] rest[i]) by {
            assert(is_white_space(back[i]));
        }
        assert(is_white_space(back[back.len() - 1]));
        assert((t + back).drop_last() =~= t + rest);
        lemma_trim_end_blank(t, rest);
    } else {
        assert(t + back =~= t);
    }
}

/// White space around a text that has none at its ends is trimmed away.
pub proof fn law_trim_removes(front: Seq<char>, t: Seq<char>, back: Seq<char>)
    requires
        is_blank(front),
        is_blank(back),
        t.len() > 0 ==> !is_white_space(t[0]) && !is_white_space(t.last()),
    ensures
        trimmed(front + t + back) == t,
{
    let tail = t + back;
    assert(front + t + back =~= front + tail);
    if t.len() > 0 {
        assert(tail[0] == t[0]);
        lemma_trim_start_blank(front, tail);
        lemma_trim_end_blank(t, back);
    } else {
        let all = front + tail;
        assert forall|i: int| 0 <= i < all.len() implies is_white_space(#[trigger] all[i]) by {
            if i < front.len() {
                assert(is_white_space(front[i]));
            } else {
                assert(is_white_space(back[i - front.len()]));
            }
        }
        lemma_trim_start_blank(all, Seq::empty());
        assert(all + Seq::<char>::empty() =~= all);
        assert(trim_start(all) =~= t);
    }
}

/// Nothing is left of a text exactly if it was nothing but white space.
pub proof fn law_trimmed_to_nothing(s: Seq<char>)
    ensures
        trimmed(s).len() == 0 <==> is_blank(s),
{
    let (front, back) = law_trim(s);
    if trimmed(s).len() == 0 {
        assert forall|i: int| 0 <= i < s.len() implies is_white_space(#[trigger] s[i]) by {
            if i < front.len() {
                assert(s[i] == front[i]);
            } else {
                assert(s[i] == back[i - front.len()]);
            }
        }
    } else {
        let k = front.len() as int;
        assert(s[k] == trimmed(s)[0]);
    }
}

/// Whether a text is the digit zero with nothing but white space around it.
pub open spec fn is_zero(s: Seq<char>) -> bool {
    exists|i: int|
        0 <= i < s.len() && #[trigger] s[i] == '0' && forall|j: int|
            0 <= j < s.len() && j != i ==> is_white_space(#[trigger] s[j])
}

/// A count reads zero exactly if it is the digit zero and white space.
pub proof fn law_trimmed_to_zero(s: Seq<char>)
    ensures
        trimmed(s) == "0"@ <==> is_zero(s),
{
    reveal_strlit("0");
    assert("0"@ =~= seq!['0']);
    let (front, back) = law_trim(s);
    if trimmed(s) == "0"@ {
        let i = front.len() as int;
        assert(s[i] == '0');
        assert forall|j: int| 0 <= j < s.len() && j != i implies is_white_space(#[trigger] s[j]) by {
            if j < i {
                assert(s[j] == front[j]);
            } else {
                assert(s[j] == back[j - i - 1]);
            }
        }
    }
    if is_zero(s) {
        let i = choose|i: int|
            0 <= i < s.len() && #[trigger] s[i] == '0' && forall|j: int|
                0 <= j < s.len() && j != i ==> is_white_space(#[trigger] s[j]);
        let a = s.take(i);
        let b = s.skip(i + 1);
        assert forall|j: int| 0 <= j < a.len() implies is_white_space(#[trigger] a[j]) by {
            assert(is_white_space(s[j]));
        }
        assert forall|j: int| 0 <= j < b.len() implies is_white_space(#[trigger] b[j]) by {
            assert(is_white_space(s[j + i + 1]));
        }
        law_trim_removes(a, seq!['0'], b);
        assert(a + seq!['0'] + b =~= s);
    }
}

/// A text is read line by line: what stands before the first line feed is the
/// first line, without a carriage return at its end, and the rest follows.
pub proof fn law_lines(first: Seq<char>, rest: Seq<char>)
    requires
        !first.contains('\n'),
    ensures
        first.len() == 0 || first.last() != '\r' ==> lines(first + seq!['\n'] + rest) == seq![first]
            + lines(rest),
        lines(first.push('\r') + seq!['\n'] + rest) == seq![first] + lines(rest),
        lines(Seq::<char>::empty()) == Seq::<Seq<char>>::empty(),
        first.len() > 0 ==> lines(first) == seq![first],
{
    lemma_split_len(rest, '\n');
    lemma_line(first, rest);
    let longer = first.push('\r');
    assert(!longer.contains('\n')) by {
        if longer.contains('\n') {
            let k = choose|k: int| 0 <= k < longer.len() && longer[k] == '\n';
            if k < first.len() {
                assert(first[k] == '\n');
            }
        }
    }
    lemma_line(longer, rest);
    assert(without_cr(longer) =~= first);
    let none = Seq::<char>::empty();
    assert(split(none, '\n') =~= seq![none]);
    assert(lines(none) =~= Seq::<Seq<char>>::empty());
    lemma_split_none(first, '\n');
    if first.len() > 0 {
        assert(lines(first) =~= seq![first]);
    }
}

proof fn lemma_line(first: Seq<char>, rest: Seq<char>)
    requires
        !first.contains('\n'),
    ensures
        lines(first + seq!['\n'] + rest) == seq![without_cr(first)] + lines(rest),
{
    lemma_split_first(first, '\n', rest);
    lemma_split_len(rest, '\n');
    let pieces = split(first + seq!['\n'] + rest, '\n');
    let later = split(rest, '\n');
    assert(pieces[0] == first);
    assert forall|i: int| 0 <= i < later.len() implies pieces[i + 1] == #[trigger] later[i] by {}
    let n = pieces.len() - 1;
    assert(pieces[n] == later[n - 1]);
    assert(lines(first + seq!['\n'] + rest) =~= seq![without_cr(first)] + lines(rest));
}

/// A text occurs in another exactly if the other is it with something before
/// and something behind.
pub proof fn law_occurs(p: Seq<char>, s: Seq<char>)
    ensures
        occurs(p, s) <==> exists|a: Seq<char>, b: Seq<char>| s == #[trigger] (a + p + b),
{
    if occurs(p, s) {
        let i = choose|i: int|
            0 <= i && i + p.len() <= s.len() && #[trigger] s.subrange(i, i + p.len()) == p;
        let a = s.take(i);
        let b = s.skip(i + p.len());
        assert(s =~= a + p + b) by {
            assert forall|k: int| 0 <= k < s.len() implies s[k] == (a + p + b)[k] by {
                if i <= k < i + p.len() {
                    assert(s.subrange(i, i + p.len())[k - i] == p[k - i]);
                }
            }
        }
    }
    if exists|a: Seq<char>, b: Seq<char>| s == #[trigger] (a + p + b) {
        let (a, b) = choose|a: Seq<char>, b: Seq<char>| s == #[trigger] (a + p + b);
        let i = a.len() as int;
        assert(s.subrange(i, i + p.len()) =~= p);
    }
}

/// One more step puts a slash and the step behind the name; the first step is
/// the name.
pub proof fn law_join_step(steps: Seq<Seq<char>>, step: Seq<char>)
    ensures
        join(steps.push(step), '/') == if steps.len() == 0 {
            step
        } else {
            join(steps, '/') + seq!['/'] + step
        },
    decreases steps.len(),
{
    let longer = steps.push(step);
    if steps.len() > 0 {
        law_join_step(steps.drop_first(), step);
        assert(longer.drop_first() =~= steps.drop_first().push(step));
        if steps.len() == 1 {
            assert(steps.drop_first().len() == 0);
            assert(join(longer, '/') =~= join(steps, '/') + seq!['/'] + step);
        } else {
            assert(join(longer, '/') =~= join(steps, '/') + seq!['/'] + step);
        }
    }
}

/// What makes a name of the virtual namespace: it is there, it is no longer
/// than 255 bytes, it has no leading dot, and none of its characters is a
/// slash, a backslash, a colon or a NUL.
pub proof fn law_components(name: Seq<char>)
    ensures
        is_valid_component(name) <==> {
            &&& 0 < name.len()
            &&& utf8(name).len() < 256
            &&& name.first() != '.'
            &&& forall|i: int|
                0 <= i < name.len() ==> {
                    let c = #[trigger] name[i];
                    c != '/' && c != '\\' && c != ':' && c != '\0'
                }
        },
{
    if name.contains('/') {
        assert(exists|i: int| 0 <= i < name.len() && #[trigger] name[i] == '/');
    }
    if name.contains('\\') {
        assert(exists|i: int| 0 <= i < name.len() && #[trigger] name[i] == '\\');
    }
    if name.contains(':') {
        assert(exists|i: int| 0 <= i < name.len() && #[trigger] name[i] == ':');
    }
    if name.contains('\0') {
        assert(exists|i: int| 0 <= i < name.len() && #[trigger] name[i] == '\0');
    }
}

/// What makes the name of a file: it is there, it is neither `.` nor `..`, and
/// none of its characters is a slash or a NUL. A leading dot is fine.
pub proof fn law_disk_names(name: Seq<char>)
    ensures
        is_valid_disk_name(name) <==> {
            &&& 0 < name.len()
            &&& !(name.len() == 1 && name[0] == '.')
            &&& !(name.len() == 2 && name[0] == '.' && name[1] == '.')
            &&& forall|i: int|
                0 <= i < name.len() ==> {
                    let c = #[trigger] name[i];
                    c != '/' && c != '\0'
                }
        },
{
    if name.len() == 1 && name[0] == '.' {
        assert(name =~= seq!['.']);
    }
    if name.len() == 2 && name[0] == '.' && name[1] == '.' {
        assert(name =~= seq!['.', '.']);
    }
    if name.contains('/') {
        assert(exists|i: int| 0 <= i < name.len() && #[trigger] name[i] == '/');
    }
    if name.contains('\0') {
        assert(exists|i: int| 0 <= i < name.len() && #[trigger] name[i] == '\0');
    }
}

} // verus!
