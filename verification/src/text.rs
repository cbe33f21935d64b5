//! Text handling shared by the parsers: cutting strings at ASCII delimiters,
//! matching prefixes and trimming, all specified over sequences of `char`.

use vstd::prelude::*;
use vstd::string::*;
use vstd::utf8::*;

verus! {

/// The UTF-8 bytes of a text.
pub open spec fn utf8(s: Seq<char>) -> Seq<u8> {
    encode_utf8(s)
}

/// Encoding distributes over concatenation.
pub proof fn lemma_utf8_concat(a: Seq<char>, b: Seq<char>)
    ensures
        utf8(a + b) == utf8(a) + utf8(b),
    decreases a.len(),
{
    if a.len() == 0 {
        assert(a + b =~= b);
        assert(utf8(a) + utf8(b) =~= utf8(b));
    } else {
        assert((a + b).drop_first() =~= a.drop_first() + b);
        lemma_utf8_concat(a.drop_first(), b);
        let head = encode_scalar(a[0] as u32);
        assert(utf8(a + b) =~= head + utf8(a.drop_first() + b));
        assert(head + (utf8(a.drop_first()) + utf8(b)) =~= (head + utf8(a.drop_first())) + utf8(b));
    }
}

/// Two texts with the same bytes are the same text.
pub proof fn lemma_utf8_injective(a: Seq<char>, b: Seq<char>)
    requires
        utf8(a) == utf8(b),
    ensures
        a == b,
{
    encode_utf8_decode_utf8(a);
    encode_utf8_decode_utf8(b);
}

/// An ASCII character is encoded as the byte of the same value.
pub proof fn lemma_utf8_ascii(c: char)
    requires
        (c as u32) < 0x80,
    ensures
        utf8(seq![c]) == seq![c as u8],
{
    let s = seq![c];
    assert(is_ascii_chars(s));
    is_ascii_chars_encode_utf8(s);
    assert(utf8(s) =~= seq![c as u8]);
}

/// Every byte below 0x80 stands for one ASCII character, which the text can
/// be cut at.
pub proof fn lemma_ascii_byte(s: Seq<char>, i: int) -> (k: int)
    requires
        0 <= i < utf8(s).len(),
        utf8(s)[i] < 0x80,
    ensures
        0 <= k < s.len(),
        s[k] as u32 == utf8(s)[i] as u32,
        utf8(s.subrange(0, k)).len() == i,
        utf8(s.subrange(0, k)) == utf8(s).subrange(0, i),
        utf8(s.subrange(k, s.len() as int)) == utf8(s).subrange(i, utf8(s).len() as int),
    decreases s.len(),
{
    let c = s[0] as u32;
    let head = encode_scalar(c);
    char_is_scalar(s[0]);
    let rest = s.drop_first();
    if i < head.len() {
        lemma_scalar_bytes(c);
        assert(utf8(s)[i] == head[i]);
        assert(s.subrange(0, 0) =~= Seq::<char>::empty());
        assert(s.subrange(0, s.len() as int) =~= s);
        assert(utf8(s).subrange(0, utf8(s).len() as int) =~= utf8(s));
        assert(utf8(s).subrange(0, 0) =~= Seq::<u8>::empty());
        0
    } else {
        assert(utf8(rest)[i - head.len()] == utf8(s)[i]);
        let k = lemma_ascii_byte(rest, i - head.len());
        assert(rest.subrange(0, k) =~= s.subrange(0, k + 1).drop_first());
        assert(utf8(s.subrange(0, k + 1)) =~= head + utf8(rest.subrange(0, k)));
        assert(utf8(s.subrange(0, k + 1)) =~= utf8(s).subrange(0, i));
        assert(s.subrange(k + 1, s.len() as int) =~= rest.subrange(k, rest.len() as int));
        assert(utf8(rest).subrange(i - head.len(), utf8(rest).len() as int) =~= utf8(s).subrange(
            i,
            utf8(s).len() as int,
        ));
        k + 1
    }
}

/// Multi-byte encodings hold no byte below 0x80.
proof fn lemma_scalar_bytes(c: u32)
    requires
        is_scalar(c),
    ensures
        encode_scalar(c).len() >= 1,
        c < 0x80 ==> encode_scalar(c) == seq![c as u8],
        c >= 0x80 ==> forall|i: int|
            0 <= i < encode_scalar(c).len() ==> (#[trigger] encode_scalar(c)[i]) >= 0x80,
{
    if has_width_1_encoding(c) {
        assert(leading_byte_width_1(c) == c as u8) by (bit_vector)
            requires
                c < 0x80,
        ;
    } else {
        assert(leading_byte_width_2(c) >= 0x80) by (bit_vector);
        assert(leading_byte_width_3(c) >= 0x80) by (bit_vector);
        assert(leading_byte_width_4(c) >= 0x80) by (bit_vector);
        assert(last_continuation_byte(c) >= 0x80) by (bit_vector);
        assert(second_last_continuation_byte(c) >= 0x80) by (bit_vector);
        assert(third_last_continuation_byte(c) >= 0x80) by (bit_vector);
    }
}

/// An ASCII character occurs in a text exactly where its byte occurs in the
/// encoding.
pub proof fn lemma_ascii_contains(s: Seq<char>, c: char)
    requires
        (c as u32) < 0x80,
    ensures
        s.contains(c) <==> utf8(s).contains(c as u8),
{
    if s.contains(c) {
        let k = choose|k: int| 0 <= k < s.len() && s[k] == c;
        let a = s.subrange(0, k);
        let b = s.subrange(k + 1, s.len() as int);
        assert(s =~= a + seq![c] + b);
        lemma_utf8_concat(a + seq![c], b);
        lemma_utf8_concat(a, seq![c]);
        lemma_utf8_ascii(c);
        assert(utf8(s)[utf8(a).len() as int] == c as u8);
    }
    if utf8(s).contains(c as u8) {
        let i = choose|i: int| 0 <= i < utf8(s).len() && utf8(s)[i] == c as u8;
        let k = lemma_ascii_byte(s, i);
        char_u32_cast(c, s[k] as u32);
        char_u32_cast(s[k], s[k] as u32);
    }
}

/// Cuts `s` in front of the ASCII byte at `at`.
fn cut_before<'a>(s: &'a str, at: usize) -> (r: (&'a str, &'a str))
    requires
        at < utf8(s@).len(),
        utf8(s@)[at as int] < 0x80,
    ensures
        s@ == r.0@ + r.1@,
        utf8(r.0@) == utf8(s@).subrange(0, at as int),
        r.1@.len() > 0,
        r.1@[0] as u32 == utf8(s@)[at as int] as u32,
        utf8(r.1@) == utf8(s@).subrange(at as int, utf8(s@).len() as int),
{
    proof {
        encode_utf8_valid_utf8(s@);
        is_char_boundary_iff_not_is_continuation_byte(utf8(s@), at as int);
    }
    let r = s.split_at(at);
    proof {
        let k = lemma_ascii_byte(s@, at as int);
        lemma_utf8_injective(r.0@, s@.subrange(0, k));
        lemma_utf8_injective(r.1@, s@.subrange(k, s@.len() as int));
        assert(s@ =~= r.0@ + r.1@);
    }
    r
}

/// Drops the first character of `s`, which is ASCII.
fn drop_ascii<'a>(s: &'a str) -> (r: &'a str)
    requires
        s@.len() > 0,
        (s@[0] as u32) < 0x80,
    ensures
        r@ == s@.drop_first(),
{
    proof {
        encode_utf8_valid_utf8(s@);
        let head = seq![s@[0]];
        let tail = s@.drop_first();
        assert(s@ =~= head + tail);
        lemma_utf8_concat(head, tail);
        lemma_utf8_ascii(s@[0]);
        let bytes = utf8(s@);
        assert(bytes.subrange(1, bytes.len() as int) =~= utf8(tail));
        if bytes.len() > 1 {
            encode_utf8_valid_utf8(tail);
            assert(valid_first_scalar(utf8(tail)));
            is_char_boundary_iff_not_is_continuation_byte(bytes, 1);
        } else {
            is_char_boundary_start_end_of_seq(bytes);
        }
    }
    let r = s.split_at(1).1;
    proof {
        lemma_utf8_injective(r@, s@.drop_first());
    }
    r
}

/// Splits `s` around the first `c`, if it holds one.
pub fn split_once<'a>(s: &'a str, c: u8) -> (r: Option<(&'a str, &'a str)>)
    requires
        c < 0x80,
    ensures
        match r {
            Some((before, after)) => {
                &&& s@ == before@ + seq![c as char] + after@
                &&& !before@.contains(c as char)
            },
            None => !s@.contains(c as char),
        },
{
    let bytes = s.as_bytes();
    let mut i: usize = 0;
    while i < bytes.len()
        invariant
            bytes@ == utf8(s@),
            i <= bytes.len(),
            c < 0x80,
            forall|j: int| 0 <= j < i ==> bytes@[j] != c,
        decreases bytes.len() - i,
    {
        if bytes[i] == c {
            let (before, rest) = cut_before(s, i);
            let after = drop_ascii(rest);
            proof {
                char_u32_cast(rest@[0], c as u32);
                lemma_ascii_contains(before@, c as char);
                assert(s@ =~= before@ + seq![c as char] + after@);
            }
            return Some((before, after));
        }
        i = i + 1;
    }
    proof {
        lemma_ascii_contains(s@, c as char);
    }
    None
}

/// The pieces of a text between the occurrences of a delimiter.
pub open spec fn split<T>(s: Seq<T>, c: T) -> Seq<Seq<T>>
    decreases s.len(),
{
    if s.len() == 0 {
        seq![Seq::empty()]
    } else if s[0] == c {
        seq![Seq::empty()] + split(s.drop_first(), c)
    } else {
        let rest = split(s.drop_first(), c);
        rest.update(0, seq![s[0]] + rest[0])
    }
}

/// The pieces put back together around the delimiter.
pub open spec fn join<T>(pieces: Seq<Seq<T>>, c: T) -> Seq<T>
    decreases pieces.len(),
{
    if pieces.len() == 0 {
        Seq::empty()
    } else if pieces.len() == 1 {
        pieces[0]
    } else {
        pieces[0] + seq![c] + join(pieces.drop_first(), c)
    }
}

/// A text has at least one piece.
pub proof fn lemma_split_len<T>(s: Seq<T>, c: T)
    ensures
        split(s, c).len() >= 1,
    decreases s.len(),
{
    if s.len() > 0 {
        lemma_split_len(s.drop_first(), c);
    }
}

/// A text without the delimiter is its only piece.
pub proof fn lemma_split_none<T>(s: Seq<T>, c: T)
    requires
        !s.contains(c),
    ensures
        split(s, c) == seq![s],
    decreases s.len(),
{
    if s.len() > 0 {
        assert(s[0] != c);
        assert forall|x: T| s.drop_first().contains(x) implies s.contains(x) by {
            let k = choose|k: int| 0 <= k < s.drop_first().len() && s.drop_first()[k] == x;
            assert(s[k + 1] == x);
        }
        lemma_split_none(s.drop_first(), c);
        assert(seq![s[0]] + s.drop_first() =~= s);
        assert(split(s, c) =~= seq![s]);
    } else {
        assert(s =~= Seq::<T>::empty());
    }
}

/// What stands in front of the first delimiter is the first piece.
pub proof fn lemma_split_first<T>(a: Seq<T>, c: T, b: Seq<T>)
    requires
        !a.contains(c),
    ensures
        split(a + seq![c] + b, c) == seq![a] + split(b, c),
    decreases a.len(),
{
    let s = a + seq![c] + b;
    if a.len() == 0 {
        assert(s.drop_first() =~= b);
        assert(a =~= Seq::<T>::empty());
    } else {
        let t = a.drop_first();
        assert(a[0] != c);
        assert forall|x: T| t.contains(x) implies a.contains(x) by {
            let k = choose|k: int| 0 <= k < t.len() && t[k] == x;
            assert(a[k + 1] == x);
        }
        lemma_split_first(t, c, b);
        assert(s.drop_first() =~= t + seq![c] + b);
        assert(seq![a[0]] + t =~= a);
        assert(split(s, c) =~= seq![a] + split(b, c));
    }
}

/// Splitting undoes joining and joining undoes splitting.
pub proof fn lemma_join_split<T>(s: Seq<T>, c: T)
    ensures
        join(split(s, c), c) == s,
        forall|i: int| 0 <= i < split(s, c).len() ==> !(#[trigger] split(s, c)[i]).contains(c),
    decreases s.len(),
{
    if s.len() == 0 {
        assert(join(split(s, c), c) =~= s);
    } else {
        let t = s.drop_first();
        lemma_join_split(t, c);
        lemma_split_len(t, c);
        let rest = split(t, c);
        let all = split(s, c);
        if s[0] == c {
            assert(all.drop_first() =~= rest);
            assert(join(all, c) =~= seq![c] + t);
            assert(seq![c] + t =~= s);
            assert forall|i: int| 0 <= i < all.len() implies !(#[trigger] all[i]).contains(c) by {
                if i > 0 {
                    assert(all[i] == rest[i - 1]);
                }
            }
        } else {
            assert(all.drop_first() =~= rest.drop_first());
            if rest.len() == 1 {
                assert(join(all, c) =~= seq![s[0]] + t);
            } else {
                assert(join(all, c) =~= seq![s[0]] + join(rest, c));
            }
            assert(seq![s[0]] + t =~= s);
            assert forall|i: int| 0 <= i < all.len() implies !(#[trigger] all[i]).contains(c) by {
                if i == 0 {
                    assert(!rest[0].contains(c));
                    if all[0].contains(c) {
                        let k = choose|k: int| 0 <= k < all[0].len() && all[0][k] == c;
                        assert(rest[0][k - 1] == c);
                    }
                } else {
                    assert(all[i] == rest[i]);
                }
            }
        }
    }
}

/// Splitting a join of pieces that hold no delimiter gives the pieces back.
pub proof fn lemma_split_join<T>(pieces: Seq<Seq<T>>, c: T)
    requires
        pieces.len() >= 1,
        forall|i: int| 0 <= i < pieces.len() ==> !(#[trigger] pieces[i]).contains(c),
    ensures
        split(join(pieces, c), c) == pieces,
    decreases pieces.len(),
{
    if pieces.len() == 1 {
        assert(!pieces[0].contains(c));
        lemma_split_none(pieces[0], c);
        assert(seq![pieces[0]] =~= pieces);
    } else {
        let rest = pieces.drop_first();
        assert forall|i: int| 0 <= i < rest.len() implies !(#[trigger] rest[i]).contains(c) by {
            assert(rest[i] == pieces[i + 1]);
        }
        lemma_split_join(rest, c);
        assert(!pieces[0].contains(c));
        lemma_split_first(pieces[0], c, join(rest, c));
        assert(seq![pieces[0]] + rest =~= pieces);
    }
}

/// Around any occurrence of the delimiter the pieces fall apart.
pub proof fn lemma_split_concat<T>(a: Seq<T>, c: T, b: Seq<T>)
    ensures
        split(a + seq![c] + b, c) == split(a, c) + split(b, c),
    decreases a.len(),
{
    let s = a + seq![c] + b;
    if a.len() == 0 {
        assert(s.drop_first() =~= b);
        assert(a =~= Seq::<T>::empty());
    } else {
        let t = a.drop_first();
        lemma_split_concat(t, c, b);
        lemma_split_len(t, c);
        assert(s.drop_first() =~= t + seq![c] + b);
        assert(split(s, c) =~= split(a, c) + split(b, c));
    }
}

/// The texts that a list of strings holds.
pub open spec fn texts(v: Seq<&str>) -> Seq<Seq<char>> {
    Seq::new(v.len(), |i: int| v[i]@)
}

/// The texts that a list of owned strings holds.
pub open spec fn strings(v: Seq<String>) -> Seq<Seq<char>> {
    Seq::new(v.len(), |i: int| v[i]@)
}

/// All pieces of `s` between the occurrences of `c`.
pub fn split_all<'a>(s: &'a str, c: u8) -> (r: Vec<&'a str>)
    requires
        c < 0x80,
    ensures
        texts(r@) == split(s@, c as char),
{
    let mut pieces: Vec<&'a str> = Vec::new();
    let mut rest: &'a str = s;
    loop
        invariant
            c < 0x80,
            split(s@, c as char) == texts(pieces@) + split(rest@, c as char),
        decreases rest@.len(),
    {
        match split_once(rest, c) {
            Some((before, after)) => {
                proof {
                    lemma_split_first(before@, c as char, after@);
                    assert(texts(pieces@.push(before)) =~= texts(pieces@) + seq![before@]);
                    assert(texts(pieces@) + (seq![before@] + split(after@, c as char)) =~= texts(
                        pieces@,
                    ) + seq![before@] + split(after@, c as char));
                }
                pieces.push(before);
                rest = after;
            },
            None => {
                proof {
                    lemma_split_none(rest@, c as char);
                    assert(texts(pieces@.push(rest)) =~= texts(pieces@) + seq![rest@]);
                }
                pieces.push(rest);
                return pieces;
            },
        }
    }
}

/// A text is a prefix of another exactly when its bytes are.
pub proof fn lemma_utf8_prefix(p: Seq<char>, s: Seq<char>)
    ensures
        p.is_prefix_of(s) <==> utf8(p).is_prefix_of(utf8(s)),
    decreases p.len(),
{
    if p.is_prefix_of(s) {
        let rest = s.subrange(p.len() as int, s.len() as int);
        assert(s =~= p + rest);
        lemma_utf8_concat(p, rest);
        assert(utf8(p) =~= utf8(s).subrange(0, utf8(p).len() as int));
    }
    if utf8(p).is_prefix_of(utf8(s)) && p.len() > 0 {
        let pb = utf8(p);
        let sb = utf8(s);
        encode_utf8_first_scalar(p);
        assert(s.len() > 0);
        encode_utf8_first_scalar(s);
        assert(forall|i: int| 0 <= i < pb.len() ==> pb[i] == sb[i]);
        assert(decode_first_scalar(pb) == decode_first_scalar(sb));
        char_u32_cast(p[0], p[0] as u32);
        char_u32_cast(s[0], s[0] as u32);
        assert(p[0] == s[0]);
        let head = encode_scalar(p[0] as u32);
        let pt = p.drop_first();
        let st = s.drop_first();
        assert(utf8(pt) =~= pb.subrange(head.len() as int, pb.len() as int));
        assert(utf8(st) =~= sb.subrange(head.len() as int, sb.len() as int));
        assert(utf8(pt) =~= utf8(st).subrange(0, utf8(pt).len() as int));
        lemma_utf8_prefix(pt, st);
        assert(p =~= s.subrange(0, p.len() as int)) by {
            assert forall|i: int| 0 <= i < p.len() implies p[i] == s[i] by {
                if i > 0 {
                    assert(pt[i - 1] == st.subrange(0, pt.len() as int)[i - 1]);
                }
            }
        }
    }
    if p.len() == 0 {
        assert(p =~= s.subrange(0, 0));
    }
}

/// The byte strings agree from `at` on, for the length of `p`.
fn bytes_at(s: &[u8], at: usize, p: &[u8]) -> (r: bool)
    requires
        at + p@.len() <= s@.len(),
    ensures
        r == (s@.subrange(at as int, at + p@.len()) == p@),
{
    let mut i: usize = 0;
    while i < p.len()
        invariant
            i <= p.len(),
            at + p.len() <= s.len(),
            forall|j: int| 0 <= j < i ==> s@[at + j] == p@[j],
        decreases p.len() - i,
    {
        if s[at + i] != p[i] {
            assert(s@.subrange(at as int, at + p@.len())[i as int] != p@[i as int]);
            return false;
        }
        i = i + 1;
    }
    assert(s@.subrange(at as int, at + p@.len()) =~= p@);
    true
}

/// Whether two texts are the same.
pub fn same(a: &str, b: &str) -> (r: bool)
    ensures
        r == (a@ == b@),
{
    let x = a.as_bytes();
    let y = b.as_bytes();
    if x.len() != y.len() {
        return false;
    }
    let r = bytes_at(x, 0, y);
    proof {
        assert(x@.subrange(0, y@.len() as int) =~= x@);
        if r {
            lemma_utf8_injective(a@, b@);
        }
    }
    r
}

/// Whether `s` starts with `p`.
pub fn starts_with(s: &str, p: &str) -> (r: bool)
    ensures
        r == p@.is_prefix_of(s@),
{
    let x = s.as_bytes();
    let y = p.as_bytes();
    proof {
        lemma_utf8_prefix(p@, s@);
    }
    if x.len() < y.len() {
        return false;
    }
    bytes_at(x, 0, y)
}

/// What follows the prefix `p` of `s`, if `s` starts with it.
pub fn strip_prefix<'a>(s: &'a str, p: &str) -> (r: Option<&'a str>)
    ensures
        match r {
            Some(rest) => s@ == p@ + rest@,
            None => !p@.is_prefix_of(s@),
        },
{
    if !starts_with(s, p) {
        return None;
    }
    let n = p.as_bytes().len();
    proof {
        let tail = s@.subrange(p@.len() as int, s@.len() as int);
        assert(s@ =~= p@ + tail);
        lemma_utf8_concat(p@, tail);
        encode_utf8_valid_utf8(s@);
        if tail.len() == 0 {
            assert(utf8(s@).len() == n);
            is_char_boundary_start_end_of_seq(utf8(s@));
        } else {
            encode_utf8_first_scalar(tail);
            is_char_boundary_iff_not_is_continuation_byte(utf8(s@), n as int);
        }
    }
    let r = s.split_at(n).1;
    proof {
        let tail = s@.subrange(p@.len() as int, s@.len() as int);
        assert(utf8(tail) =~= utf8(r@));
        lemma_utf8_injective(tail, r@);
    }
    Some(r)
}

/// What precedes the suffix `p` of `s`, if `s` ends with it; `p` starts with
/// an ASCII character.
pub fn strip_suffix<'a>(s: &'a str, p: &str) -> (r: Option<&'a str>)
    requires
        p@.len() > 0,
        (p@[0] as u32) < 0x80,
    ensures
        match r {
            Some(rest) => s@ == rest@ + p@,
            None => !p@.is_suffix_of(s@),
        },
{
    let x = s.as_bytes();
    let y = p.as_bytes();
    proof {
        if p@.is_suffix_of(s@) {
            let head = s@.subrange(0, s@.len() - p@.len());
            assert(s@ =~= head + p@);
            lemma_utf8_concat(head, p@);
            assert(utf8(s@).subrange(utf8(head).len() as int, utf8(s@).len() as int) =~= utf8(p@));
        }
    }
    if x.len() < y.len() {
        return None;
    }
    let at = x.len() - y.len();
    if !bytes_at(x, at, y) {
        return None;
    }
    proof {
        lemma_scalar_bytes(p@[0] as u32);
        assert(utf8(p@)[0] < 0x80);
        assert(utf8(s@)[at as int] == utf8(s@).subrange(at as int, at + y@.len())[0]);
    }
    let (rest, tail) = cut_before(s, at);
    proof {
        lemma_utf8_injective(tail@, p@);
    }
    Some(rest)
}

/// A line without the carriage return at its end.
pub open spec fn without_cr(s: Seq<char>) -> Seq<char> {
    if s.len() > 0 && s.last() == '\r' {
        s.drop_last()
    } else {
        s
    }
}

/// The lines of a text: each ends in a line feed, or in a carriage return and
/// a line feed, and only the last may go without.
pub open spec fn lines(s: Seq<char>) -> Seq<Seq<char>> {
    let pieces = split(s, '\n');
    let n = pieces.len() - 1;
    let ended = Seq::new(n as nat, |i: int| without_cr(pieces[i]));
    if pieces[n].len() == 0 {
        ended
    } else {
        ended.push(pieces[n])
    }
}

/// The lines of `s`.
pub fn lines_of<'a>(s: &'a str) -> (r: Vec<&'a str>)
    ensures
        texts(r@) == lines(s@),
{
    let pieces = split_all(s, 10u8);
    proof {
        assert(10u8 as char == '\n');
        lemma_split_len(s@, '\n');
    }
    let n: usize = pieces.len() - 1;
    let mut out: Vec<&'a str> = Vec::new();
    let mut i: usize = 0;
    while i < n
        invariant
            texts(pieces@) == split(s@, '\n'),
            i <= n,
            n == pieces@.len() - 1,
            out@.len() == i,
            forall|j: int|
                0 <= j < i ==> (#[trigger] out@[j])@ == without_cr(split(s@, '\n')[j]),
        decreases n - i,
    {
        proof {
            reveal_strlit("\r");
            assert("\r"@ =~= seq!['\r']);
        }
        let piece = pieces[i];
        assert(piece@ == texts(pieces@)[i as int]);
        match strip_suffix(piece, "\r") {
            Some(line) => {
                assert(without_cr(piece@) =~= line@);
                out.push(line);
            },
            None => {
                assert(piece@.len() > 0 && piece@.last() == '\r' ==> "\r"@.is_suffix_of(piece@)) by {
                    if piece@.len() > 0 && piece@.last() == '\r' {
                        assert("\r"@ =~= piece@.subrange(piece@.len() - 1, piece@.len() as int));
                    }
                }
                out.push(piece);
            },
        }
        i = i + 1;
    }
    let last = pieces[n];
    assert(last@ == texts(pieces@)[n as int]);
    if !last.is_empty() {
        out.push(last);
    }
    assert(texts(out@) =~= lines(s@));
    out
}

/// The characters of `s`.
pub fn chars_of(s: &str) -> (r: Vec<char>)
    ensures
        r@ == s@,
{
    let mut out: Vec<char> = Vec::new();
    for c in it: s.chars()
        invariant
            out@ == it.seq().take(it.index() as int),
            it.seq() == s@,
    {
        out.push(c);
        assert(it.seq().take(it.index() + 1) =~= it.seq().take(it.index() as int).push(c));
    }
    assert(s@.take(s@.len() as int) =~= s@);
    out
}

/// Whether `p` occurs in `s`.
pub open spec fn occurs(p: Seq<char>, s: Seq<char>) -> bool {
    exists|i: int| 0 <= i && i + p.len() <= s.len() && #[trigger] s.subrange(i, i + p.len()) == p
}

/// Whether `p` occurs in `s`.
pub fn contains(s: &str, p: &str) -> (r: bool)
    ensures
        r == occurs(p@, s@),
{
    let x = chars_of(s);
    let y = chars_of(p);
    if x.len() < y.len() {
        return false;
    }
    let last = x.len() - y.len();
    let mut i: usize = 0;
    while i <= last
        invariant
            x@ == s@,
            y@ == p@,
            last == x@.len() - y@.len(),
            i <= last + 1,
            forall|j: int| 0 <= j < i ==> #[trigger] s@.subrange(j, j + p@.len()) != p@,
        decreases last + 1 - i,
    {
        let mut k: usize = 0;
        while k < y.len() && x[i + k] == y[k]
            invariant
                x@ == s@,
                y@ == p@,
                last == x.len() - y.len(),
                i <= last,
                k <= y@.len(),
                forall|j: int| 0 <= j < k ==> s@[i + j] == p@[j],
            decreases y@.len() - k,
        {
            k = k + 1;
        }
        if k == y.len() {
            assert(s@.subrange(i as int, i + p@.len()) =~= p@);
            return true;
        }
        assert(s@.subrange(i as int, i + p@.len())[k as int] != p@[k as int]);
        if i == last {
            return false;
        }
        i = i + 1;
    }
    false
}

/// The characters that Unicode lists under White_Space.
pub open spec fn is_white_space(c: char) -> bool {
    ||| '\t' <= c <= '\r'
    ||| c == ' '
    ||| c == '\u{85}'
    ||| c == '\u{a0}'
    ||| c == '\u{1680}'
    ||| '\u{2000}' <= c <= '\u{200a}'
    ||| c == '\u{2028}'
    ||| c == '\u{2029}'
    ||| c == '\u{202f}'
    ||| c == '\u{205f}'
    ||| c == '\u{3000}'
}

fn white_space(c: char) -> (r: bool)
    ensures
        r == is_white_space(c),
{
    ('\t' <= c && c <= '\r') || c == ' ' || c == '\u{85}' || c == '\u{a0}' || c == '\u{1680}' || (
    '\u{2000}' <= c && c <= '\u{200a}') || c == '\u{2028}' || c == '\u{2029}' || c == '\u{202f}' || c
        == '\u{205f}' || c == '\u{3000}'
}

/// A text without the white space in front of it.
pub open spec fn trim_start(s: Seq<char>) -> Seq<char>
    decreases s.len(),
{
    if s.len() > 0 && is_white_space(s[0]) {
        trim_start(s.drop_first())
    } else {
        s
    }
}

/// A text without the white space behind it.
pub open spec fn trim_end(s: Seq<char>) -> Seq<char>
    decreases s.len(),
{
    if s.len() > 0 && is_white_space(s.last()) {
        trim_end(s.drop_last())
    } else {
        s
    }
}

/// A text without the white space around it.
pub open spec fn trimmed(s: Seq<char>) -> Seq<char> {
    trim_end(trim_start(s))
}

/// `s` without the white space around it.
pub fn trim<'a>(s: &'a str) -> (r: &'a str)
    ensures
        r@ == trimmed(s@),
{
    let x = chars_of(s);
    let mut from: usize = 0;
    assert(s@.subrange(0, s@.len() as int) =~= s@);
    while from < x.len() && white_space(x[from])
        invariant
            x@ == s@,
            from <= x@.len(),
            trim_start(s@) == trim_start(s@.subrange(from as int, s@.len() as int)),
        decreases x@.len() - from,
    {
        proof {
            let rest = s@.subrange(from as int, s@.len() as int);
            assert(rest.drop_first() =~= s@.subrange(from + 1, s@.len() as int));
        }
        from = from + 1;
    }
    let ghost rest = s@.subrange(from as int, s@.len() as int);
    assert(trim_start(s@) == rest);
    let mut to: usize = x.len();
    assert(s@.subrange(from as int, to as int) =~= rest);
    while to > from && white_space(x[to - 1])
        invariant
            x@ == s@,
            from <= to <= x@.len(),
            trim_end(rest) == trim_end(s@.subrange(from as int, to as int)),
        decreases to,
    {
        proof {
            let cur = s@.subrange(from as int, to as int);
            assert(cur.drop_last() =~= s@.subrange(from as int, to - 1));
        }
        to = to - 1;
    }
    s.substring_char(from, to)
}

/// Joins `pieces` with `c` between them.
pub fn join_all(pieces: &[String], c: &str) -> (r: String)
    requires
        c@.len() == 1,
    ensures
        r@ == join(strings(pieces@), c@[0]),
{
    let mut out = String::new();
    let mut i: usize = pieces.len();
    proof {
        assert(c@ =~= seq![c@[0]]);
    }
    let ghost all = strings(pieces@);
    while i > 0
        invariant
            c@ == seq![c@[0]],
            i <= pieces@.len(),
            all == strings(pieces@),
            out@ == join(all.subrange(i as int, all.len() as int), c@[0]),
        decreases i,
    {
        let ghost tail = all.subrange(i as int, all.len() as int);
        i = i - 1;
        let ghost here = all.subrange(i as int, all.len() as int);
        assert(here.drop_first() =~= tail);
        let mut piece = pieces[i].clone();
        if i + 1 < pieces.len() {
            piece.append(c);
            piece.append(out.as_str());
        }
        out = piece;
    }
    assert(all.subrange(0, all.len() as int) =~= all);
    out
}

/// The text that stands for a byte string when everything that is not UTF-8
/// is replaced: the result of `String::from_utf8_lossy`.
pub uninterp spec fn lossy(bytes: Seq<u8>) -> Seq<char>;

/// Calls `String::from_utf8_lossy`. The result is a function of the bytes;
/// bytes that are the encoding of a text give that text back. Which
/// replacement characters stand for the rest is left unsaid.
#[verifier::external_body]
pub(crate) fn lossy_text(bytes: &[u8]) -> (r: String)
    ensures
        r@ == lossy(bytes@),
        valid_utf8(bytes@) ==> r@ == decode_utf8(bytes@),
{
    String::from_utf8_lossy(bytes).into_owned()
}

/// Calls `std::str::from_utf8`: the text whose encoding the bytes are, if they
/// are one.
#[verifier::external_body]
pub(crate) fn exact_text(bytes: &[u8]) -> (r: Option<String>)
    ensures
        match r {
            Some(text) => valid_utf8(bytes@) && text@ == decode_utf8(bytes@),
            None => !valid_utf8(bytes@),
        },
{
    match std::str::from_utf8(bytes) {
        Ok(text) => Some(text.to_owned()),
        Err(_) => None,
    }
}

} // verus!
