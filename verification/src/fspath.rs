//! File system paths as byte strings, with the component-wise view that
//! decides which of them name the same place.

use crate::text::{
    lemma_split_concat, lemma_split_first, lemma_split_len, lemma_split_none, lossy, lossy_text, split,
    utf8,
};
use vstd::prelude::*;
use vstd::string::*;

verus! {

/// The byte `/`, which separates the components of a path.
pub const SEPARATOR: u8 = 47;

/// The byte `.`, which alone stands for the current directory.
pub const DOT: u8 = 46;

/// A path: any byte string, as the file system has them.
#[derive(Debug)]
pub struct FsPath {
    bytes: Vec<u8>,
}

impl View for FsPath {
    type V = Seq<u8>;

    closed spec fn view(&self) -> Seq<u8> {
        self.bytes@
    }
}

/// Whether a path starts at the root directory.
pub open spec fn is_absolute(p: Seq<u8>) -> bool {
    p.len() > 0 && p[0] == SEPARATOR
}

/// The path that `name` denotes when it is read inside the directory `p`: an
/// absolute name stands for itself.
pub open spec fn path_join(p: Seq<u8>, name: Seq<u8>) -> Seq<u8> {
    if is_absolute(name) {
        name
    } else if p.len() == 0 || p.last() == SEPARATOR {
        p + name
    } else {
        p + seq![SEPARATOR] + name
    }
}

/// Whether a piece between separators counts as a component.
pub open spec fn is_component(piece: Seq<u8>) -> bool {
    piece.len() > 0 && piece != seq![DOT]
}

/// The components of a path: the root directory or a leading `.`, then the
/// named steps. Repeated separators and inner `.` steps do not count.
pub open spec fn components(p: Seq<u8>) -> Seq<Seq<u8>> {
    let pieces = split(p, SEPARATOR);
    let start = if is_absolute(p) {
        seq![seq![SEPARATOR]]
    } else if pieces[0] == seq![DOT] {
        seq![seq![DOT]]
    } else {
        seq![]
    };
    start + pieces.filter(|piece: Seq<u8>| is_component(piece))
}

proof fn lemma_filter_concat(a: Seq<Seq<u8>>, b: Seq<Seq<u8>>)
    ensures
        (a + b).filter(|piece: Seq<u8>| is_component(piece)) == a.filter(
            |piece: Seq<u8>| is_component(piece),
        ) + b.filter(|piece: Seq<u8>| is_component(piece)),
{
    Seq::filter_distributes_over_add(a, b, |piece: Seq<u8>| is_component(piece));
}

/// The empty path has no components.
proof fn lemma_no_components(p: Seq<u8>)
    requires
        p.len() == 0,
    ensures
        components(p) == Seq::<Seq<u8>>::empty(),
{
    let pieces = split(p, SEPARATOR);
    let none = Seq::<Seq<u8>>::empty();
    assert(pieces.drop_last() =~= none);
    reveal(Seq::filter);
    let pred = |piece: Seq<u8>| is_component(piece);
    assert(none.filter(pred) =~= none);
    assert(pieces.len() == 1 && pieces[0] =~= Seq::<u8>::empty());
    assert(!pred(pieces.last()));
    assert(pieces.filter(pred) =~= none);
    assert(pieces[0].len() != seq![DOT].len());
    assert(components(p) =~= none);
}

/// Joining a relative name to a directory adds the components of the name to
/// those of the directory.
pub proof fn lemma_join_components(p: Seq<u8>, name: Seq<u8>)
    requires
        !is_absolute(name),
        split(name, SEPARATOR)[0] != seq![DOT],
    ensures
        components(path_join(p, name)) == components(p) + components(name),
{
    let pred = |piece: Seq<u8>| is_component(piece);
    let pieces = split(p, SEPARATOR);
    let named = split(name, SEPARATOR);
    let joined = path_join(p, name);
    lemma_split_len(p, SEPARATOR);
    lemma_split_len(name, SEPARATOR);
    if p.len() == 0 {
        lemma_no_components(p);
        assert(joined =~= name);
        assert(components(p) + components(name) =~= components(name));
    } else if p.last() == SEPARATOR {
        let q = p.drop_last();
        assert(p =~= q + seq![SEPARATOR] + Seq::<u8>::empty());
        assert(joined =~= q + seq![SEPARATOR] + name);
        lemma_split_concat(q, SEPARATOR, Seq::<u8>::empty());
        lemma_split_concat(q, SEPARATOR, name);
        lemma_split_len(q, SEPARATOR);
        let empty = split(Seq::<u8>::empty(), SEPARATOR);
        assert(empty =~= seq![Seq::<u8>::empty()]);
        lemma_filter_concat(split(q, SEPARATOR), empty);
        lemma_filter_concat(split(q, SEPARATOR), named);
        assert(empty.drop_last() =~= Seq::<Seq<u8>>::empty());
        reveal_with_fuel(Seq::filter, 2);
        assert(empty.filter(pred) =~= Seq::<Seq<u8>>::empty());
        assert(pieces.filter(pred) =~= split(q, SEPARATOR).filter(pred));
        assert(split(joined, SEPARATOR)[0] == pieces[0]);
        assert(components(joined) =~= components(p) + components(name));
    } else {
        lemma_split_concat(p, SEPARATOR, name);
        lemma_filter_concat(pieces, named);
        assert(split(joined, SEPARATOR)[0] == pieces[0]);
        assert(components(joined) =~= components(p) + components(name));
    }
}

/// A name without separator that is not `.` is its own only component.
pub proof fn lemma_name_components(name: Seq<u8>)
    requires
        is_component(name),
        !name.contains(SEPARATOR),
    ensures
        components(name) == seq![name],
        !is_absolute(name),
        split(name, SEPARATOR)[0] == name,
{
    lemma_split_none(name, SEPARATOR);
    let pieces = split(name, SEPARATOR);
    let pred = |piece: Seq<u8>| is_component(piece);
    reveal_with_fuel(Seq::filter, 2);
    assert(pieces.drop_last() =~= Seq::<Seq<u8>>::empty());
    assert(pieces.filter(pred) =~= seq![name]);
    assert(name[0] != SEPARATOR) by {
        if name[0] == SEPARATOR {
            assert(name.contains(SEPARATOR));
        }
    }
    assert(components(name) =~= seq![name]);
}

/// Copies a byte string.
pub fn bytes_copy(bytes: &[u8]) -> (r: Vec<u8>)
    ensures
        r@ == bytes@,
{
    let mut out: Vec<u8> = Vec::new();
    bytes_push_all(&mut out, bytes);
    assert(out@ =~= bytes@);
    out
}

fn bytes_push_all(out: &mut Vec<u8>, bytes: &[u8])
    ensures
        final(out)@ == old(out)@ + bytes@,
{
    out.extend_from_slice(bytes);
    assert(out@ =~= old(out)@ + bytes@);
}

fn bytes_same(a: &[u8], b: &[u8]) -> (r: bool)
    ensures
        r == (a@ == b@),
{
    if a.len() != b.len() {
        return false;
    }
    let mut i: usize = 0;
    while i < a.len()
        invariant
            i <= a.len(),
            a@.len() == b@.len(),
            forall|j: int| 0 <= j < i ==> a@[j] == b@[j],
        decreases a.len() - i,
    {
        if a[i] != b[i] {
            return false;
        }
        i = i + 1;
    }
    assert(a@ =~= b@);
    true
}

/// What a list of byte strings holds.
pub open spec fn byte_strings(v: Seq<Vec<u8>>) -> Seq<Seq<u8>> {
    Seq::new(v.len(), |i: int| v[i]@)
}

/// The components of a byte string, in order.
fn components_of(bytes: &[u8]) -> (r: Vec<Vec<u8>>)
    ensures
        byte_strings(r@) == components(bytes@),
{
    let ghost p = bytes@;
    let ghost pred = |piece: Seq<u8>| is_component(piece);
    let mut out: Vec<Vec<u8>> = Vec::new();
    if bytes.len() > 0 && bytes[0] == SEPARATOR {
        let mut root: Vec<u8> = Vec::new();
        root.push(SEPARATOR);
        assert(root@ =~= seq![SEPARATOR]);
        out.push(root);
    } else if bytes.len() > 0 && bytes[0] == DOT && (bytes.len() == 1 || bytes[1] == SEPARATOR) {
        let mut dot: Vec<u8> = Vec::new();
        dot.push(DOT);
        assert(dot@ =~= seq![DOT]);
        out.push(dot);
    }
    let ghost start = byte_strings(out@);
    proof {
        lemma_start(p);
        assert(components(p) =~= start + split(p, SEPARATOR).filter(pred));
    }
    let mut from: usize = 0;
    let mut i: usize = 0;
    let ghost mut done: Seq<Seq<u8>> = Seq::empty();
    proof {
        assert(p.subrange(0, p.len() as int) =~= p);
        assert(done + split(p, SEPARATOR) =~= split(p, SEPARATOR));
        assert(done.filter(pred) =~= Seq::<Seq<u8>>::empty());
        assert(start + done.filter(pred) =~= start);
    }
    loop
        invariant
            p == bytes@,
            from <= i <= bytes.len(),
            pred == (|piece: Seq<u8>| is_component(piece)),
            forall|j: int| from <= j < i ==> p[j] != SEPARATOR,
            split(p, SEPARATOR) == done + split(
                p.subrange(from as int, p.len() as int),
                SEPARATOR,
            ),
            byte_strings(out@) == start + done.filter(pred),
            components(p) == start + split(p, SEPARATOR).filter(pred),
        decreases bytes.len() - i,
    {
        let at_end = i == bytes.len();
        if at_end || bytes[i] == SEPARATOR {
            let piece = bytes_copy(vstd::slice::slice_subrange(bytes, from, i));
            let ghost rest = p.subrange(from as int, p.len() as int);
            proof {
                assert(!piece@.contains(SEPARATOR));
                assert(done.push(piece@).drop_last() =~= done);
                reveal_with_fuel(Seq::filter, 2);
            }
            let keep = piece.len() > 0 && !(piece.len() == 1 && piece[0] == DOT);
            proof {
                if piece@.len() == 1 && piece@[0] == DOT {
                    assert(piece@ =~= seq![DOT]);
                }
                assert(keep == is_component(piece@));
            }
            let ghost before = out@;
            let ghost whole = piece@;
            if keep {
                out.push(piece);
                assert(byte_strings(out@) =~= byte_strings(before).push(whole));
            }
            proof {
                assert(byte_strings(out@) =~= start + done.push(whole).filter(pred));
            }
            if at_end {
                proof {
                    assert(rest =~= whole);
                    lemma_split_none(rest, SEPARATOR);
                    assert(done + seq![rest] =~= done.push(whole));
                }
                return out;
            }
            proof {
                let tail = p.subrange(i + 1, p.len() as int);
                assert(rest =~= whole + seq![SEPARATOR] + tail);
                lemma_split_first(whole, SEPARATOR, tail);
                assert(done + (seq![whole] + split(tail, SEPARATOR)) =~= done.push(whole) + split(
                    tail,
                    SEPARATOR,
                ));
                done = done.push(whole);
            }
            from = i + 1;
        }
        i = i + 1;
    }
}

/// A path starts with the piece `.` when it is `.` or begins with `./`.
proof fn lemma_start(p: Seq<u8>)
    ensures
        split(p, SEPARATOR)[0] == seq![DOT] <==> p.len() > 0 && p[0] == DOT && (p.len() == 1 || p[1]
            == SEPARATOR),
{
    let head = split(p, SEPARATOR);
    lemma_split_len(p, SEPARATOR);
    if p.len() > 0 && p[0] != SEPARATOR {
        let t = p.drop_first();
        lemma_split_len(t, SEPARATOR);
        let rest = split(t, SEPARATOR);
        assert(head[0] == seq![p[0]] + rest[0]);
        assert(head[0][0] == p[0]);
        if t.len() == 0 || t[0] == SEPARATOR {
            assert(rest[0] =~= Seq::<u8>::empty());
            assert(head[0] =~= seq![p[0]]);
        } else {
            lemma_split_len(t.drop_first(), SEPARATOR);
            assert(rest[0].len() >= 1);
            assert(head[0].len() >= 2);
        }
    } else {
        assert(head[0] =~= Seq::<u8>::empty());
        assert(head[0].len() == 0);
    }
}

/// Whether the first `n` bytes of a path name the directory that holds it.
pub open spec fn is_parent_cut(p: Seq<u8>, n: int) -> bool {
    &&& 0 <= n <= p.len()
    &&& components(p).len() > 0
    &&& components(p).last() != seq![SEPARATOR]
    &&& components(p.take(n)) == components(p).drop_last()
}

/// The directory that holds what a path names: the shortest leading part of
/// the path that has all its components but the last. The root directory and
/// the empty path have none.
pub open spec fn path_parent(p: Seq<u8>) -> Option<Seq<u8>> {
    if exists|n: int| is_parent_cut(p, n) {
        let n = choose|n: int| #[trigger] is_parent_cut(p, n) && forall|m: int| #[trigger] is_parent_cut(p, m) ==> n <= m;
        Some(p.take(n))
    } else {
        None
    }
}

proof fn lemma_parent_cut(p: Seq<u8>, n: int)
    requires
        is_parent_cut(p, n),
        forall|m: int| 0 <= m < n ==> !#[trigger] is_parent_cut(p, m),
    ensures
        path_parent(p) == Some(p.take(n)),
{
    assert forall|m: int| #[trigger] is_parent_cut(p, m) implies n <= m by {}
    let k = choose|k: int| #[trigger] is_parent_cut(p, k) && forall|m: int| #[trigger] is_parent_cut(p, m) ==> k <= m;
    assert(is_parent_cut(p, k) && k <= n);
}

impl FsPath {
    /// The directory that holds what this path names.
    pub fn parent(&self) -> (r: Option<FsPath>)
        ensures
            match (r, path_parent(self@)) {
                (Some(dir), Some(p)) => dir@ == p,
                (None, None) => true,
                _ => false,
            },
    {
        let mut all = components_of(self.bytes.as_slice());
        let ghost p = self@;
        match all.pop() {
            None => {
                assert(byte_strings(all@).len() == 0);
                return None;
            },
            Some(last) => {
                assert(byte_strings(all@.push(last)) == components(p));
                assert(components(p).last() == last@);
                if last.len() == 1 && last[0] == SEPARATOR {
                    assert(last@ =~= seq![SEPARATOR]);
                    return None;
                }
                assert(byte_strings(all@) =~= components(p).drop_last());
            },
        }
        let mut n: usize = 0;
        while n <= self.bytes.len()
            invariant
                p == self@,
                p == self.bytes@,
                n <= p.len() + 1,
                components(p).len() > 0,
                components(p).last() != seq![SEPARATOR],
                byte_strings(all@) == components(p).drop_last(),
                forall|m: int| 0 <= m < n ==> !#[trigger] is_parent_cut(p, m),
            decreases p.len() + 1 - n,
        {
            let head = vstd::slice::slice_subrange(self.bytes.as_slice(), 0, n);
            assert(head@ =~= p.take(n as int));
            let found = components_of(head);
            if found.len() == all.len() && components_agree(&found, &all) {
                proof {
                    lemma_parent_cut(p, n as int);
                }
                return Some(FsPath { bytes: bytes_copy(head) });
            }
            assert(byte_strings(found@) != byte_strings(all@)) by {
                if found@.len() != all@.len() {
                    assert(byte_strings(found@).len() != byte_strings(all@).len());
                }
            }
            if n == self.bytes.len() {
                return None;
            }
            n = n + 1;
        }
        None
    }

    /// The path as text, with replacements for what is not UTF-8.
    pub fn to_text(&self) -> (r: String)
        ensures
            r@ == lossy(self@),
    {
        lossy_text(self.bytes.as_slice())
    }

    /// The path with the bytes given.
    pub fn from_bytes(bytes: Vec<u8>) -> (r: FsPath)
        ensures
            r@ == bytes@,
    {
        FsPath { bytes }
    }

    /// The path that `text` spells.
    pub fn from_text(text: &str) -> (r: FsPath)
        ensures
            r@ == utf8(text@),
    {
        FsPath { bytes: bytes_copy(text.as_bytes()) }
    }

    /// The bytes of the path.
    pub fn as_bytes(&self) -> (r: &[u8])
        ensures
            r@ == self@,
    {
        self.bytes.as_slice()
    }

    /// The path that `name` denotes inside this directory.
    pub fn join(&self, name: &str) -> (r: FsPath)
        ensures
            r@ == path_join(self@, utf8(name@)),
    {
        let tail = name.as_bytes();
        if tail.len() > 0 && tail[0] == SEPARATOR {
            return FsPath { bytes: bytes_copy(tail) };
        }
        let mut bytes = bytes_copy(self.bytes.as_slice());
        if bytes.len() > 0 && bytes[bytes.len() - 1] != SEPARATOR {
            bytes.push(SEPARATOR);
        }
        bytes_push_all(&mut bytes, tail);
        proof {
            if self@.len() > 0 && self@.last() != SEPARATOR {
                assert(self@.push(SEPARATOR) =~= self@ + seq![SEPARATOR]);
            }
        }
        FsPath { bytes }
    }

    /// The path with `text` written behind it.
    pub fn append(&self, text: &str) -> (r: FsPath)
        ensures
            r@ == self@ + utf8(text@),
    {
        let mut bytes = bytes_copy(self.bytes.as_slice());
        bytes_push_all(&mut bytes, text.as_bytes());
        FsPath { bytes }
    }

    /// Whether both paths have the same components.
    pub fn same_path(&self, other: &FsPath) -> (r: bool)
        ensures
            r == (components(self@) == components(other@)),
    {
        let a = components_of(self.bytes.as_slice());
        let b = components_of(other.bytes.as_slice());
        if a.len() != b.len() {
            assert(byte_strings(a@).len() != byte_strings(b@).len());
            return false;
        }
        components_agree(&a, &b)
    }

    /// Whether the components of `base` are the first ones of this path.
    pub fn starts_with(&self, base: &FsPath) -> (r: bool)
        ensures
            r == components(base@).is_prefix_of(components(self@)),
    {
        let a = components_of(base.bytes.as_slice());
        let b = components_of(self.bytes.as_slice());
        if a.len() > b.len() {
            assert(byte_strings(a@).len() > byte_strings(b@).len());
            return false;
        }
        let r = components_agree(&a, &b);
        assert(byte_strings(b@).subrange(0, a@.len() as int) =~= byte_strings(
            b@.subrange(0, a@.len() as int),
        ));
        r
    }
}

/// Whether the first entries of `b` are those of `a`.
fn components_agree(a: &Vec<Vec<u8>>, b: &Vec<Vec<u8>>) -> (r: bool)
    requires
        a@.len() <= b@.len(),
    ensures
        r == (byte_strings(a@) == byte_strings(b@).subrange(0, a@.len() as int)),
        a@.len() == b@.len() ==> r == (byte_strings(a@) == byte_strings(b@)),
{
    let mut i: usize = 0;
    assert(a@.len() == b@.len() ==> byte_strings(b@).subrange(0, a@.len() as int) =~= byte_strings(b@));
    while i < a.len()
        invariant
            i <= a@.len() <= b@.len(),
            forall|j: int| 0 <= j < i ==> (#[trigger] a@[j])@ == b@[j]@,
            a@.len() == b@.len() ==> byte_strings(b@).subrange(0, a@.len() as int) == byte_strings(b@),
        decreases a@.len() - i,
    {
        if !bytes_same(a[i].as_slice(), b[i].as_slice()) {
            assert(byte_strings(a@)[i as int] != byte_strings(b@).subrange(0, a@.len() as int)[i as int]);
            return false;
        }
        i = i + 1;
    }
    assert(byte_strings(a@) =~= byte_strings(b@).subrange(0, a@.len() as int));
    true
}

impl Clone for FsPath {
    fn clone(&self) -> (r: FsPath)
        ensures
            r@ == self@,
    {
        FsPath { bytes: bytes_copy(self.bytes.as_slice()) }
    }
}

impl PartialEq for FsPath {
    fn eq(&self, other: &FsPath) -> (r: bool) {
        self.same_path(other)
    }
}

impl vstd::std_specs::cmp::PartialEqSpecImpl for FsPath {
    open spec fn obeys_eq_spec() -> bool {
        true
    }

    open spec fn eq_spec(&self, other: &FsPath) -> bool {
        components(self@) == components(other@)
    }
}

} // verus!
