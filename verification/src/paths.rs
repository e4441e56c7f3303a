//! Paths of files, as texts.

use vstd::prelude::*;
use crate::order::{bytes_at_most, bytes_le, bytes_le_antisymmetric, bytes_le_total,
    bytes_le_transitive, Order};
use crate::text::{append_text, chars_of, same_bytes, text_of};
use vstd::string::StringSliceAdditionalSpecFns;

verus! {

/// The path of `name` in the directory `dir`. A `name` that is a path from the
/// root stands for itself.
pub open spec fn joined(dir: Seq<char>, name: Seq<char>) -> Seq<char> {
    if name.len() > 0 && name[0] == '/' {
        name
    } else if dir.len() == 0 || dir.last() == '/' {
        dir + name
    } else {
        dir.push('/') + name
    }
}

/// The path of `name` in the directory `dir`.
pub fn join(dir: &str, name: &str) -> (r: String)
    ensures
        r@ == joined(dir@, name@),
{
    let d = chars_of(dir);
    let n = chars_of(name);
    if n.len() > 0 && n[0] == '/' {
        return text_of(n.as_slice());
    }
    if d.len() == 0 || d[d.len() - 1] == '/' {
        append_text(dir, name)
    } else {
        let mut base = text_of(d.as_slice());
        base.push('/');
        append_text(base.as_str(), name)
    }
}

/// The last place of a character.
pub open spec fn last_place(s: Seq<char>, c: char) -> Option<int>
    decreases s.len(),
{
    if s.len() == 0 {
        None
    } else if s.last() == c {
        Some(s.len() - 1)
    } else {
        last_place(s.drop_last(), c)
    }
}

/// The last place of a character.
pub fn rfind(s: &[char], c: char) -> (r: Option<usize>)
    ensures
        match (r, last_place(s@, c)) {
            (Some(i), Some(j)) => i == j && i < s@.len(),
            (None, None) => true,
            _ => false,
        },
{
    let mut n: usize = s.len();
    assert(s@.take(n as int) =~= s@);
    while n > 0
        invariant
            n <= s@.len(),
            last_place(s@, c) == last_place(s@.take(n as int), c),
        decreases n,
    {
        if s[n - 1] == c {
            return Some(n - 1);
        }
        assert(s@.take(n as int).drop_last() =~= s@.take(n - 1));
        n = n - 1;
    }
    None
}

/// A file name without its extension, and the extension. A dot at the start
/// makes no extension.
pub open spec fn stem_and_extension(name: Seq<char>) -> (Seq<char>, Option<Seq<char>>) {
    match last_place(name, '.') {
        Some(i) => if i == 0 {
            (name, None)
        } else {
            (name.take(i), Some(name.skip(i + 1)))
        },
        None => (name, None),
    }
}

/// A file name without its extension, and the extension.
pub fn split_name<'a>(name: &'a [char]) -> (r: (&'a [char], Option<&'a [char]>))
    ensures
        r.0@ == stem_and_extension(name@).0,
        match (r.1, stem_and_extension(name@).1) {
            (Some(e), Some(f)) => e@ == f,
            (None, None) => true,
            _ => false,
        },
{
    let n: usize = name.len();
    match rfind(name, '.') {
        Some(i) => if i == 0 {
            (name, None)
        } else {
            let stem = vstd::slice::slice_subrange(name, 0, i);
            let extension = vstd::slice::slice_subrange(name, i + 1, n);
            assert(stem@ =~= name@.take(i as int));
            assert(extension@ =~= name@.skip(i + 1));
            (stem, Some(extension))
        },
        None => (name, None),
    }
}

/// A path without the slashes, and steps to the same directory, at its end.
pub open spec fn without_tail(s: Seq<char>) -> Seq<char>
    decreases s.len(),
{
    if s.len() > 1 && s.last() == '/' {
        without_tail(s.drop_last())
    } else if s.len() > 1 && s.last() == '.' && s[s.len() - 2] == '/' {
        without_tail(s.drop_last())
    } else {
        s
    }
}

/// Where the last component of a path begins.
pub open spec fn name_start(s: Seq<char>) -> int {
    match last_place(s, '/') {
        Some(i) => i + 1,
        None => 0,
    }
}

/// The name that a path from the root ends with; the root and the parent
/// directory have none.
pub open spec fn file_name(s: Seq<char>) -> Option<Seq<char>> {
    let t = without_tail(s);
    let name = t.skip(name_start(t));
    if name.len() == 0 || name == seq!['.', '.'] || name == seq!['.'] {
        None
    } else {
        Some(name)
    }
}

/// A path whose file name has another extension. A path without a file name
/// stays.
pub open spec fn with_extension(s: Seq<char>, extension: Seq<char>) -> Seq<char> {
    let t = without_tail(s);
    match file_name(s) {
        Some(name) => t.take(name_start(t)) + stem_and_extension(name).0.push('.') + extension,
        None => s,
    }
}

fn trim_tail(s: &[char]) -> (r: &[char])
    ensures
        r@ == without_tail(s@),
{
    let mut n: usize = s.len();
    assert(s@.take(n as int) =~= s@);
    while n > 1 && (s[n - 1] == '/' || (s[n - 1] == '.' && s[n - 2] == '/'))
        invariant
            n <= s@.len(),
            without_tail(s@) == without_tail(s@.take(n as int)),
        ensures
            n <= s@.len(),
            without_tail(s@) == s@.take(n as int),
        decreases n,
    {
        assert(s@.take(n as int).drop_last() =~= s@.take(n - 1));
        n = n - 1;
    }
    let r = vstd::slice::slice_subrange(s, 0, n);
    assert(r@ =~= s@.take(n as int));
    r
}

fn start_of_name(s: &[char]) -> (r: usize)
    ensures
        r == name_start(s@),
        r <= s@.len(),
{
    let n: usize = s.len();
    match rfind(s, '/') {
        Some(i) => {
            assert(i < n);
            i + 1
        },
        None => 0,
    }
}

/// The name that a path ends with.
pub fn name_of<'a>(s: &'a [char]) -> (r: Option<&'a [char]>)
    ensures
        match (r, file_name(s@)) {
            (Some(n), Some(m)) => n@ == m,
            (None, None) => true,
            _ => false,
        },
{
    let t = trim_tail(s);
    let at: usize = start_of_name(t);
    let name = vstd::slice::slice_subrange(t, at, t.len());
    assert(name@ =~= t@.skip(at as int));
    if name.len() == 0 {
        return None;
    }
    if name.len() == 1 && name[0] == '.' {
        assert(name@ =~= seq!['.']);
        return None;
    }
    if name.len() == 2 && name[0] == '.' && name[1] == '.' {
        assert(name@ =~= seq!['.', '.']);
        return None;
    }
    Some(name)
}

/// A path whose file name has another extension.
pub fn replace_extension(path: &str, extension: &str) -> (r: String)
    ensures
        r@ == with_extension(path@, extension@),
{
    let s = chars_of(path);
    match name_of(s.as_slice()) {
        Some(name) => {
            let t = trim_tail(s.as_slice());
            let at: usize = start_of_name(t);
            let dir = text_of(vstd::slice::slice_subrange(t, 0, at));
            assert(dir@ =~= t@.take(at as int));
            let mut stem = text_of(split_name(name).0);
            stem.push('.');
            let tail = append_text(stem.as_str(), extension);
            let r = append_text(dir.as_str(), tail.as_str());
            assert(r@ =~= with_extension(path@, extension@));
            r
        },
        None => text_of(s.as_slice()),
    }
}

/// A component of a path: what kind it is, and its name. The root comes first,
/// then the current directory, the parent directory, and names.
pub struct Part {
    pub rank: u8,
    pub name: Vec<u8>,
}

/// The pieces of `s` between slashes.
pub open spec fn slashed(s: Seq<u8>) -> Seq<Seq<u8>>
    decreases s.len(),
{
    if s.len() == 0 {
        seq![Seq::empty()]
    } else {
        let front = slashed(s.drop_last());
        if s.last() == 0x2f {
            front.push(Seq::empty())
        } else {
            front.update(front.len() - 1, front.last().push(s.last()))
        }
    }
}

/// The component that the piece at some place of a path makes: an empty piece
/// none but the root, a dot none but at the start.
pub open spec fn part(piece: Seq<u8>, first: bool, more: bool) -> Option<(u8, Seq<u8>)> {
    if piece.len() == 0 {
        if first && more {
            Some((0u8, piece))
        } else {
            None
        }
    } else if piece == seq![0x2eu8] {
        if first {
            Some((1u8, piece))
        } else {
            None
        }
    } else if piece == seq![0x2eu8, 0x2eu8] {
        Some((2u8, piece))
    } else {
        Some((3u8, piece))
    }
}

/// The components of the first `n` of some pieces.
pub open spec fn parts_among(pieces: Seq<Seq<u8>>, n: int) -> Seq<(u8, Seq<u8>)>
    decreases n,
{
    if n <= 0 {
        Seq::empty()
    } else {
        let front = parts_among(pieces, n - 1);
        match part(pieces[n - 1], n == 1, pieces.len() > 1) {
            Some(p) => front.push(p),
            None => front,
        }
    }
}

/// The components of a path. Paths with the same components are the same.
pub open spec fn parts(path: Seq<u8>) -> Seq<(u8, Seq<u8>)> {
    parts_among(slashed(path), slashed(path).len() as int)
}

/// Whether the components `a` come no later than `b`.
pub open spec fn parts_le(a: Seq<(u8, Seq<u8>)>, b: Seq<(u8, Seq<u8>)>) -> bool
    decreases a.len(),
{
    if a.len() == 0 {
        true
    } else if b.len() == 0 {
        false
    } else if a[0] != b[0] {
        part_le(a[0], b[0])
    } else {
        parts_le(a.drop_first(), b.drop_first())
    }
}

/// Whether one component comes no later than another.
pub open spec fn part_le(a: (u8, Seq<u8>), b: (u8, Seq<u8>)) -> bool {
    a.0 < b.0 || (a.0 == b.0 && bytes_le(a.1, b.1))
}

/// Paths in the order of their components.
pub struct ByPath;

impl Order<String> for ByPath {
    open spec fn le(a: String, b: String) -> bool {
        parts_le(parts(vstd::utf8::encode_utf8(a@)), parts(vstd::utf8::encode_utf8(b@)))
    }

    proof fn total(a: String, b: String) {
        lemma_parts_total(
            parts(vstd::utf8::encode_utf8(a@)),
            parts(vstd::utf8::encode_utf8(b@)),
        );
    }

    proof fn transitive(a: String, b: String, c: String) {
        lemma_parts_transitive(
            parts(vstd::utf8::encode_utf8(a@)),
            parts(vstd::utf8::encode_utf8(b@)),
            parts(vstd::utf8::encode_utf8(c@)),
        );
    }

    fn at_most(a: &String, b: &String) -> (r: bool) {
        let x = parts_of(a.as_str().as_bytes());
        let y = parts_of(b.as_str().as_bytes());
        parts_at_most(x.as_slice(), y.as_slice())
    }
}

proof fn lemma_parts_total(a: Seq<(u8, Seq<u8>)>, b: Seq<(u8, Seq<u8>)>)
    ensures
        parts_le(a, b) || parts_le(b, a),
    decreases a.len(),
{
    if a.len() > 0 && b.len() > 0 {
        bytes_le_total(a[0].1, b[0].1);
        if a[0] == b[0] {
            lemma_parts_total(a.drop_first(), b.drop_first());
        }
    }
}

proof fn lemma_parts_transitive(
    a: Seq<(u8, Seq<u8>)>,
    b: Seq<(u8, Seq<u8>)>,
    c: Seq<(u8, Seq<u8>)>,
)
    requires
        parts_le(a, b),
        parts_le(b, c),
    ensures
        parts_le(a, c),
    decreases a.len(),
{
    if a.len() > 0 && b.len() > 0 && c.len() > 0 {
        if a[0] == b[0] && b[0] == c[0] {
            lemma_parts_transitive(a.drop_first(), b.drop_first(), c.drop_first());
        } else if a[0] != b[0] && b[0] != c[0] {
            if a[0].0 == b[0].0 && b[0].0 == c[0].0 {
                bytes_le_transitive(a[0].1, b[0].1, c[0].1);
            }
            if a[0] == c[0] {
                bytes_le_antisymmetric(a[0].1, b[0].1);
            }
        }
    }
}

/// Only the same components come no later than each other.
pub proof fn lemma_parts_antisymmetric(a: Seq<(u8, Seq<u8>)>, b: Seq<(u8, Seq<u8>)>)
    requires
        parts_le(a, b),
        parts_le(b, a),
    ensures
        a == b,
    decreases a.len(),
{
    if a.len() > 0 && b.len() > 0 {
        if a[0] == b[0] {
            lemma_parts_antisymmetric(a.drop_first(), b.drop_first());
            assert(a =~= seq![a[0]] + a.drop_first());
            assert(b =~= seq![b[0]] + b.drop_first());
        } else {
            bytes_le_antisymmetric(a[0].1, b[0].1);
        }
    } else {
        assert(a =~= b);
    }
}

/// The components of some parts.
pub open spec fn part_views(v: Seq<Part>) -> Seq<(u8, Seq<u8>)> {
    v.map_values(|p: Part| (p.rank, p.name@))
}

/// The bytes of some pieces.
pub open spec fn byte_pieces(v: Seq<Vec<u8>>) -> Seq<Seq<u8>> {
    v.map_values(|p: Vec<u8>| p@)
}

fn split_slashes(s: &[u8]) -> (r: Vec<Vec<u8>>)
    ensures
        byte_pieces(r@) == slashed(s@),
{
    let mut r: Vec<Vec<u8>> = Vec::new();
    let mut piece: Vec<u8> = Vec::new();
    let mut i: usize = 0;
    assert(byte_pieces(r@).push(piece@) =~= slashed(s@.take(0)));
    while i < s.len()
        invariant
            i <= s@.len(),
            byte_pieces(r@).push(piece@) == slashed(s@.take(i as int)),
        decreases s@.len() - i,
    {
        let c: u8 = s[i];
        let ghost front = slashed(s@.take(i as int));
        let ghost before = r@;
        let ghost part = piece@;
        assert(s@.take(i + 1).drop_last() =~= s@.take(i as int));
        assert(front.last() == part);
        if c == 0x2f {
            r.push(piece);
            piece = Vec::new();
            assert(byte_pieces(r@) =~= byte_pieces(before).push(part));
            assert(byte_pieces(r@).push(piece@) =~= front.push(Seq::empty()));
        } else {
            piece.push(c);
            assert(byte_pieces(r@).push(piece@) =~= front.update(
                front.len() - 1,
                part.push(c),
            ));
        }
        i = i + 1;
    }
    assert(s@.take(i as int) =~= s@);
    let ghost before = r@;
    let ghost part = piece@;
    r.push(piece);
    assert(byte_pieces(r@) =~= byte_pieces(before).push(part));
    r
}

fn parts_of(path: &[u8]) -> (r: Vec<Part>)
    ensures
        part_views(r@) == parts(path@),
{
    let pieces = split_slashes(path);
    let ghost all = slashed(path@);
    let mut r: Vec<Part> = Vec::new();
    let mut i: usize = 0;
    assert(part_views(r@) =~= parts_among(all, 0));
    while i < pieces.len()
        invariant
            i <= pieces@.len(),
            byte_pieces(pieces@) == all,
            part_views(r@) == parts_among(all, i as int),
        decreases pieces@.len() - i,
    {
        let piece: &[u8] = pieces[i].as_slice();
        assert(all[i as int] == piece@);
        let first: bool = i == 0;
        let rank: Option<u8> = if piece.len() == 0 {
            if first && pieces.len() > 1 {
                Some(0)
            } else {
                None
            }
        } else if piece.len() == 1 && piece[0] == 0x2e {
            assert(piece@ =~= seq![0x2eu8]);
            if first {
                Some(1)
            } else {
                None
            }
        } else if piece.len() == 2 && piece[0] == 0x2e && piece[1] == 0x2e {
            assert(piece@ =~= seq![0x2eu8, 0x2eu8]);
            Some(2)
        } else {
            Some(3)
        };
        let ghost before = r@;
        if let Some(rank) = rank {
            let name: Vec<u8> = vstd::slice::slice_to_vec(piece);
            r.push(Part { rank, name });
            assert(part_views(r@) =~= part_views(before).push((rank, piece@)));
        }
        i = i + 1;
    }
    r
}

fn parts_at_most(a: &[Part], b: &[Part]) -> (r: bool)
    ensures
        r == parts_le(part_views(a@), part_views(b@)),
{
    let ghost x = part_views(a@);
    let ghost y = part_views(b@);
    let mut i: usize = 0;
    assert(x.skip(0) =~= x);
    assert(y.skip(0) =~= y);
    while i < a.len() && i < b.len()
        invariant
            i <= a@.len(),
            i <= b@.len(),
            x == part_views(a@),
            y == part_views(b@),
            parts_le(x, y) == parts_le(x.skip(i as int), y.skip(i as int)),
        decreases a@.len() - i,
    {
        let p: &Part = &a[i];
        let q: &Part = &b[i];
        assert(x.skip(i as int)[0] == (p.rank, p.name@));
        assert(y.skip(i as int)[0] == (q.rank, q.name@));
        if p.rank != q.rank || !same_bytes(p.name.as_slice(), q.name.as_slice()) {
            return p.rank < q.rank || (p.rank == q.rank && bytes_at_most(
                p.name.as_slice(),
                q.name.as_slice(),
            ));
        }
        assert(x.skip(i as int).drop_first() =~= x.skip(i + 1));
        assert(y.skip(i as int).drop_first() =~= y.skip(i + 1));
        i = i + 1;
    }
    i == a.len()
}

/// Whether two paths are the same.
pub fn same_path(a: &str, b: &str) -> (r: bool)
    ensures
        r == (parts(a.spec_bytes()) == parts(b.spec_bytes())),
{
    let x = parts_of(a.as_bytes());
    let y = parts_of(b.as_bytes());
    if x.len() != y.len() {
        assert(part_views(x@).len() != part_views(y@).len());
        return false;
    }
    let mut i: usize = 0;
    while i < x.len()
        invariant
            i <= x@.len(),
            x@.len() == y@.len(),
            part_views(x@) == parts(a.spec_bytes()),
            part_views(y@) == parts(b.spec_bytes()),
            forall|j: int| 0 <= j < i ==> part_views(x@)[j] == part_views(y@)[j],
        decreases x@.len() - i,
    {
        if x[i].rank != y[i].rank || !same_bytes(x[i].name.as_slice(), y[i].name.as_slice()) {
            assert(part_views(x@)[i as int] != part_views(y@)[i as int]);
            return false;
        }
        i = i + 1;
    }
    assert(part_views(x@) =~= part_views(y@));
    true
}

} // verus!
