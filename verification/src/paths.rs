//! File paths as texts, with `/` between their components.
use vstd::prelude::*;

use crate::text::{
    copy_str, rfind_char, same, split, str_rfind_char, str_skip, str_split, str_take, texts,
    to_chars,
};

verus! {

/// Whether a path starts at the root.
pub open spec fn is_absolute(s: Seq<char>) -> bool {
    s.len() > 0 && s[0] == '/'
}

/// `b` seen from the directory `a`.
pub open spec fn path_join(a: Seq<char>, b: Seq<char>) -> Seq<char> {
    if is_absolute(b) {
        b
    } else if a.len() > 0 && a.last() != '/' {
        a.push('/') + b
    } else {
        a + b
    }
}

/// A path without what follows its last component: separators and `.`.
pub open spec fn trim_tail(s: Seq<char>) -> Seq<char>
    decreases s.len(),
{
    if s.len() > 1 && s.last() == '/' {
        trim_tail(s.drop_last())
    } else if s.len() > 1 && s.last() == '.' && s[s.len() - 2] == '/' {
        trim_tail(s.drop_last())
    } else {
        s
    }
}

/// Where the last component of a trimmed path begins.
pub open spec fn last_start(t: Seq<char>) -> int {
    match rfind_char(t, '/') {
        Some(k) => k + 1,
        None => 0,
    }
}

/// The path without its last component; nothing for the root and for the
/// empty path.
pub open spec fn parent(s: Seq<char>) -> Option<Seq<char>> {
    let t = trim_tail(s);
    if t.len() == 0 || t == seq!['/'] {
        None
    } else {
        Some(trim_tail(t.take(last_start(t))))
    }
}

/// The last component, where it is a name.
pub open spec fn file_name(s: Seq<char>) -> Option<Seq<char>> {
    let t = trim_tail(s);
    let name = t.skip(last_start(t));
    if name.len() == 0 || name == seq!['.'] || name == seq!['.', '.'] {
        None
    } else {
        Some(name)
    }
}

/// Where the extension of a file name is split off: at its last dot, unless
/// the dot is its first character.
pub open spec fn dot_of(name: Seq<char>) -> Option<int> {
    match rfind_char(name, '.') {
        Some(k) => if k == 0 {
            None
        } else {
            Some(k)
        },
        None => None,
    }
}

/// A file name without its extension.
pub open spec fn stem_of(name: Seq<char>) -> Seq<char> {
    match dot_of(name) {
        Some(k) => name.take(k),
        None => name,
    }
}

/// The extension of a file name, empty where it has none.
pub open spec fn ext_of(name: Seq<char>) -> Seq<char> {
    match dot_of(name) {
        Some(k) => name.skip(k + 1),
        None => Seq::empty(),
    }
}

/// The pieces that are components wherever they stand: all but the empty ones
/// and `.`.
pub open spec fn real_pieces(pieces: Seq<Seq<char>>) -> Seq<Seq<char>>
    decreases pieces.len(),
{
    if pieces.len() == 0 {
        Seq::empty()
    } else {
        let p = pieces.last();
        let before = real_pieces(pieces.drop_last());
        if p.len() == 0 || p == seq!['.'] {
            before
        } else {
            before.push(p)
        }
    }
}

/// The components of a path: the root `/`, a leading `.`, and every other
/// piece between separators that is neither empty nor `.`.
pub open spec fn components(s: Seq<char>) -> Seq<Seq<char>> {
    let pieces = split(s, seq!['/']);
    let head = if is_absolute(s) {
        seq![seq!['/']]
    } else if pieces.len() > 0 && pieces[0] == seq!['.'] {
        seq![seq!['.']]
    } else {
        Seq::empty()
    };
    head + real_pieces(pieces)
}

/// Whether a component is the name of a file or directory.
pub open spec fn is_name(c: Seq<char>) -> bool {
    c != seq!['/'] && c != seq!['.'] && c != seq!['.', '.']
}

/// `acc` extended by components, where `..` takes back the name before it and
/// `.` is dropped.
pub open spec fn resolve_dots(acc: Seq<Seq<char>>, comps: Seq<Seq<char>>) -> Seq<Seq<char>>
    decreases comps.len(),
{
    if comps.len() == 0 {
        acc
    } else {
        let c = comps[0];
        let next = if c == seq!['.', '.'] {
            if acc.len() > 0 && is_name(acc.last()) {
                acc.drop_last()
            } else {
                acc.push(c)
            }
        } else if c == seq!['.'] {
            acc
        } else {
            acc.push(c)
        };
        resolve_dots(next, comps.drop_first())
    }
}

/// The number of leading elements that two sequences share.
pub open spec fn common_prefix(a: Seq<Seq<char>>, b: Seq<Seq<char>>) -> nat
    decreases a.len(),
{
    if a.len() > 0 && b.len() > 0 && a[0] == b[0] {
        1 + common_prefix(a.drop_first(), b.drop_first())
    } else {
        0
    }
}

/// The path that joining the parts to `acc`, one after the other, gives.
pub open spec fn push_all(acc: Seq<char>, parts: Seq<Seq<char>>) -> Seq<char>
    decreases parts.len(),
{
    if parts.len() == 0 {
        acc
    } else {
        push_all(path_join(acc, parts[0]), parts.drop_first())
    }
}

/// The components of a path with its dots resolved.
pub open spec fn normal_components(s: Seq<char>) -> Seq<Seq<char>> {
    resolve_dots(Seq::empty(), components(s))
}

/// The way from one directory to another: up with `..` to where the two paths
/// part, and down from there; `.` where they are the same.
pub open spec fn relative_path(from: Seq<char>, to: Seq<char>) -> Seq<char> {
    let f = normal_components(from);
    let t = normal_components(to);
    let c = common_prefix(f, t);
    let ups = Seq::new((f.len() - c) as nat, |i: int| seq!['.', '.']);
    let r = push_all(push_all(Seq::empty(), ups), t.skip(c as int));
    if r.len() == 0 {
        seq!['.']
    } else {
        r
    }
}

proof fn lemma_trim_tail(s: Seq<char>)
    ensures
        trim_tail(s).len() <= s.len(),
        trim_tail(s).len() <= 1 || trim_tail(s).last() != '/',
    decreases s.len(),
{
    if s.len() > 1 && (s.last() == '/' || (s.last() == '.' && s[s.len() - 2] == '/')) {
        lemma_trim_tail(s.drop_last());
    }
}

proof fn lemma_last_start(t: Seq<char>)
    ensures
        0 <= last_start(t) <= t.len(),
        t.len() > 0 && t.last() != '/' ==> last_start(t) < t.len(),
    decreases t.len(),
{
    if t.len() > 0 && t.last() != '/' {
        lemma_last_start(t.drop_last());
    }
}

/// The parent of a path is shorter than the path.
pub proof fn parent_is_shorter(s: Seq<char>)
    ensures
        parent(s) is Some ==> parent(s)->0.len() < s.len(),
{
    let t = trim_tail(s);
    lemma_trim_tail(s);
    lemma_last_start(t);
    lemma_trim_tail(t.take(last_start(t)));
    if t.len() == 1 && t[0] == '/' {
        assert(t =~= seq!['/']);
    }
}

/// Whether two paths have the same components.
pub open spec fn same_path(a: Seq<char>, b: Seq<char>) -> bool {
    components(a) == components(b)
}

/// A directory and those above it, up to `root` or to the last one.
pub open spec fn up_chain(dir: Seq<char>, root: Seq<char>) -> Seq<Seq<char>>
    decreases dir.len(),
{
    if same_path(dir, root) {
        seq![dir]
    } else {
        match parent(dir) {
            Some(p) => {
                proof {
                    parent_is_shorter(dir);
                }
                seq![dir] + up_chain(p, root)
            },
            None => seq![dir],
        }
    }
}

/// A directory seen from itself is `.`.
pub proof fn relative_path_to_itself(d: Seq<char>)
    ensures
        relative_path(d, d) == seq!['.'],
{
    let f = normal_components(d);
    lemma_common_prefix_same(f);
    assert(f.skip(f.len() as int) =~= Seq::empty());
    assert(Seq::new(0nat, |i: int| seq!['.', '.']) =~= Seq::<Seq<char>>::empty());
}

proof fn lemma_common_prefix_same(a: Seq<Seq<char>>)
    ensures
        common_prefix(a, a) == a.len(),
    decreases a.len(),
{
    if a.len() > 0 {
        lemma_common_prefix_same(a.drop_first());
    }
}

pub fn str_is_absolute(s: &str) -> (r: bool)
    ensures
        r == is_absolute(s@),
{
    let v = to_chars(s);
    v.len() > 0 && v[0] == '/'
}

pub fn str_path_join(a: &str, b: &str) -> (r: String)
    ensures
        r@ == path_join(a@, b@),
{
    if str_is_absolute(b) {
        return copy_str(b);
    }
    let v = to_chars(a);
    let mut out = copy_str(a);
    if v.len() > 0 && v[v.len() - 1] != '/' {
        out.push('/');
    }
    out.append(b);
    out
}

pub fn str_trim_tail<'a>(s: &'a str) -> (r: &'a str)
    ensures
        r@ == trim_tail(s@),
{
    let v = to_chars(s);
    let mut n: usize = v.len();
    assert(s@.take(n as int) =~= s@);
    while n > 1 && (v[n - 1] == '/' || (v[n - 1] == '.' && v[n - 2] == '/'))
        invariant
            n <= v.len(),
            v@ == s@,
            trim_tail(s@) == trim_tail(s@.take(n as int)),
        decreases n,
    {
        assert(s@.take(n as int).drop_last() =~= s@.take(n - 1));
        n -= 1;
    }
    str_take(s, n)
}

fn find_last_start(t: &str) -> (r: usize)
    ensures
        r == last_start(t@),
        r <= t@.len(),
{
    match str_rfind_char(t, '/') {
        Some(k) => k + 1,
        None => 0,
    }
}

pub fn str_parent<'a>(s: &'a str) -> (r: Option<&'a str>)
    ensures
        match r {
            Some(p) => parent(s@) == Some(p@),
            None => parent(s@) is None,
        },
{
    let t = str_trim_tail(s);
    let v = to_chars(t);
    if v.len() == 0 {
        return None;
    }
    if v.len() == 1 && v[0] == '/' {
        assert(t@ =~= seq!['/']);
        return None;
    }
    let k = find_last_start(t);
    Some(str_trim_tail(str_take(t, k)))
}

pub fn str_file_name<'a>(s: &'a str) -> (r: Option<&'a str>)
    ensures
        match r {
            Some(p) => file_name(s@) == Some(p@),
            None => file_name(s@) is None,
        },
{
    let t = str_trim_tail(s);
    let k = find_last_start(t);
    let name = str_skip(t, k);
    let v = to_chars(name);
    if v.len() == 0 {
        return None;
    }
    if v.len() == 1 && v[0] == '.' {
        assert(name@ =~= seq!['.']);
        return None;
    }
    if v.len() == 2 && v[0] == '.' && v[1] == '.' {
        assert(name@ =~= seq!['.', '.']);
        return None;
    }
    Some(name)
}

pub fn str_stem_of<'a>(name: &'a str) -> (r: &'a str)
    ensures
        r@ == stem_of(name@),
{
    match str_rfind_char(name, '.') {
        Some(k) => if k == 0 {
            name
        } else {
            str_take(name, k)
        },
        None => name,
    }
}

pub fn str_ext_of<'a>(name: &'a str) -> (r: &'a str)
    ensures
        r@ == ext_of(name@),
{
    match str_rfind_char(name, '.') {
        Some(k) => if k == 0 {
            assert(name@.skip(name@.len() as int) =~= Seq::empty());
            str_skip(name, name.unicode_len())
        } else {
            str_skip(name, k + 1)
        },
        None => {
            assert(name@.skip(name@.len() as int) =~= Seq::empty());
            str_skip(name, name.unicode_len())
        },
    }
}

fn is_dot(p: &str) -> (r: bool)
    ensures
        r == (p@ == seq!['.']),
{
    let v = to_chars(p);
    if v.len() == 1 && v[0] == '.' {
        assert(p@ =~= seq!['.']);
        true
    } else {
        false
    }
}

fn is_dot_dot(p: &str) -> (r: bool)
    ensures
        r == (p@ == seq!['.', '.']),
{
    let v = to_chars(p);
    if v.len() == 2 && v[0] == '.' && v[1] == '.' {
        assert(p@ =~= seq!['.', '.']);
        true
    } else {
        false
    }
}

fn str_is_name(p: &str) -> (r: bool)
    ensures
        r == is_name(p@),
{
    let v = to_chars(p);
    if v.len() == 1 && v[0] == '/' {
        assert(p@ =~= seq!['/']);
        return false;
    }
    !is_dot(p) && !is_dot_dot(p)
}

/// The components of a path.
pub fn str_components(s: &str) -> (r: Vec<String>)
    ensures
        texts(r@) == components(s@),
{
    proof {
        reveal_strlit("/");
        assert("/"@ =~= seq!['/']);
    }
    let pieces = str_split(s, "/");
    let ghost all = texts(pieces@);
    let mut out: Vec<String> = Vec::new();
    if str_is_absolute(s) {
        out.push(copy_str("/"));
        assert(texts(out@) =~= seq![seq!['/']]);
    } else if is_dot(pieces[0].as_str()) {
        let dot = copy_str(pieces[0].as_str());
        out.push(dot);
        assert(all[0] == seq!['.']);
        assert(texts(out@) =~= seq![seq!['.']]);
    } else {
        assert(all[0] != seq!['.']);
        assert(texts(out@) =~= Seq::empty());
    }
    let ghost head = texts(out@);
    let mut i: usize = 0;
    proof {
        assert(all.take(0) =~= Seq::empty());
        assert(head + real_pieces(all.take(0)) =~= head);
    }
    while i < pieces.len()
        invariant
            i <= pieces@.len(),
            all == texts(pieces@),
            texts(out@) == head + real_pieces(all.take(i as int)),
        decreases pieces.len() - i,
    {
        let p = pieces[i].as_str();
        let ghost before = texts(out@);
        proof {
            assert(all.take(i + 1).drop_last() =~= all.take(i as int));
            assert(all.take(i + 1).last() == p@);
        }
        if !(p.is_empty() || is_dot(p)) {
            out.push(copy_str(p));
            assert(texts(out@) =~= before.push(p@));
            assert(before.push(p@) =~= head + real_pieces(all.take(i as int)).push(p@));
        }
        i += 1;
    }
    assert(all.take(all.len() as int) =~= all);
    out
}

fn same_list(a: &Vec<String>, b: &Vec<String>) -> (r: bool)
    ensures
        r == (texts(a@) == texts(b@)),
{
    if a.len() != b.len() {
        assert(texts(a@).len() != texts(b@).len());
        return false;
    }
    let mut i: usize = 0;
    while i < a.len()
        invariant
            i <= a@.len(),
            a@.len() == b@.len(),
            forall|j: int| 0 <= j < i ==> texts(a@)[j] == texts(b@)[j],
        decreases a.len() - i,
    {
        if !same(a[i].as_str(), b[i].as_str()) {
            assert(texts(a@)[i as int] != texts(b@)[i as int]);
            return false;
        }
        i += 1;
    }
    assert(texts(a@) =~= texts(b@));
    true
}

/// Whether two paths have the same components.
pub fn str_same_path(a: &str, b: &str) -> (r: bool)
    ensures
        r == same_path(a@, b@),
{
    let x = str_components(a);
    let y = str_components(b);
    same_list(&x, &y)
}

/// A directory and those above it, up to `root` or to the last one.
pub fn str_up_chain(dir: &str, root: &str) -> (r: Vec<String>)
    ensures
        texts(r@) == up_chain(dir@, root@),
        r@.len() > 0,
{
    let mut out: Vec<String> = Vec::new();
    let mut cur = dir;
    assert(texts(out@) + up_chain(dir@, root@) =~= up_chain(dir@, root@));
    loop
        invariant
            up_chain(dir@, root@) == texts(out@) + up_chain(cur@, root@),
        decreases cur@.len(),
    {
        let ghost before = texts(out@);
        out.push(copy_str(cur));
        assert(texts(out@) =~= before + seq![cur@]);
        if str_same_path(cur, root) {
            return out;
        }
        match str_parent(cur) {
            Some(p) => {
                proof {
                    parent_is_shorter(cur@);
                    assert(before + (seq![cur@] + up_chain(p@, root@)) =~= texts(out@) + up_chain(
                        p@,
                        root@,
                    ));
                }
                cur = p;
            },
            None => {
                return out;
            },
        }
    }
}

/// The components of a path with its dots resolved.
pub fn str_normal_components(s: &str) -> (r: Vec<String>)
    ensures
        texts(r@) == normal_components(s@),
{
    let comps = str_components(s);
    let ghost all = texts(comps@);
    let mut out: Vec<String> = Vec::new();
    let mut i: usize = 0;
    proof {
        assert(all.skip(0) =~= all);
        assert(texts(out@) =~= Seq::empty());
    }
    while i < comps.len()
        invariant
            i <= comps@.len(),
            all == texts(comps@),
            resolve_dots(Seq::empty(), all) == resolve_dots(texts(out@), all.skip(i as int)),
        decreases comps.len() - i,
    {
        let c = comps[i].as_str();
        let ghost acc = texts(out@);
        proof {
            assert(all.skip(i as int).drop_first() =~= all.skip(i + 1));
            assert(all.skip(i as int)[0] == c@);
        }
        if is_dot_dot(c) {
            if out.len() > 0 && str_is_name(out[out.len() - 1].as_str()) {
                assert(acc.last() == out@.last()@);
                out.pop();
                assert(texts(out@) =~= acc.drop_last());
            } else {
                assert(acc.len() > 0 ==> acc.last() == out@.last()@);
                out.push(copy_str(c));
                assert(texts(out@) =~= acc.push(c@));
            }
        } else if !is_dot(c) {
            out.push(copy_str(c));
            assert(texts(out@) =~= acc.push(c@));
        }
        i += 1;
    }
    out
}

/// The relative path from one directory to another.
///
/// It is `.` when both are the same, and goes up with `..` as needed.
pub fn compute_relative_path(from: &str, to: &str) -> (r: String)
    ensures
        r@ == relative_path(from@, to@),
{
    let f = str_normal_components(from);
    let t = str_normal_components(to);
    let ghost a = texts(f@);
    let ghost b = texts(t@);
    let mut c: usize = 0;
    proof {
        assert(a.skip(0) =~= a);
        assert(b.skip(0) =~= b);
    }
    while c < f.len() && c < t.len() && same(f[c].as_str(), t[c].as_str())
        invariant
            c <= f@.len(),
            c <= t@.len(),
            a == texts(f@),
            b == texts(t@),
            common_prefix(a, b) == c + common_prefix(a.skip(c as int), b.skip(c as int)),
        decreases f.len() - c,
    {
        proof {
            assert(a.skip(c as int).drop_first() =~= a.skip(c + 1));
            assert(b.skip(c as int).drop_first() =~= b.skip(c + 1));
        }
        c += 1;
    }
    assert(common_prefix(a.skip(c as int), b.skip(c as int)) == 0);
    let ghost ups = Seq::new((a.len() - c) as nat, |i: int| seq!['.', '.']);
    let mut out = String::new();
    let mut i: usize = c;
    proof {
        reveal_strlit("..");
        assert(".."@ =~= seq!['.', '.']);
        assert(ups.skip(0) =~= ups);
    }
    while i < f.len()
        invariant
            c <= i <= f@.len(),
            a.len() == f@.len(),
            ".."@ == seq!['.', '.'],
            ups == Seq::new((a.len() - c) as nat, |i: int| seq!['.', '.']),
            push_all(Seq::empty(), ups) == push_all(out@, ups.skip(i - c)),
        decreases f.len() - i,
    {
        assert(ups.skip(i - c).drop_first() =~= ups.skip(i - c + 1));
        out = str_path_join(out.as_str(), "..");
        i += 1;
    }
    assert(ups.skip(a.len() - c) =~= Seq::empty());
    let ghost base = out@;
    let ghost tail = b.skip(c as int);
    let mut j: usize = c;
    assert(tail.skip(0) =~= tail);
    while j < t.len()
        invariant
            c <= j <= t@.len(),
            b == texts(t@),
            tail == b.skip(c as int),
            push_all(base, tail) == push_all(out@, tail.skip(j - c)),
        decreases t.len() - j,
    {
        assert(tail.skip(j - c).drop_first() =~= tail.skip(j - c + 1));
        out = str_path_join(out.as_str(), t[j].as_str());
        j += 1;
    }
    assert(tail.skip(t@.len() - c) =~= Seq::empty());
    if out.as_str().is_empty() {
        out.push('.');
        assert(out@ =~= seq!['.']);
    }
    out
}

} // verus!
