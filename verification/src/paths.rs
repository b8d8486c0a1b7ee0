//! Slash-separated paths as text.

use vstd::prelude::*;

use crate::seqs;
use crate::text;

verus! {

/// A path component that names something.
pub open spec fn naming() -> spec_fn(Seq<char>) -> bool {
    |p: Seq<char>| p.len() > 0 && p != seq!['.']
}

/// The components of a path: its root, where it has one, then its names. Empty
/// names and `.` stand for nothing, except a `.` that opens a relative path.
pub open spec fn components(path: Seq<char>) -> Seq<Seq<char>> {
    let names = text::pieces(path, '/');
    let kept = names.filter(naming());
    if path.len() > 0 && path[0] == '/' {
        seq![seq!['/']] + kept
    } else if names[0] == seq!['.'] {
        seq![seq!['.']] + kept
    } else {
        kept
    }
}

/// The components of a path.
fn split_path(path: &str) -> (r: Vec<String>)
    ensures
        text::views(r@) == components(path@),
{
    let names = text::split(path, '/');
    let chars = text::chars_of(path);
    let ghost all = text::views(names@);
    let mut out: Vec<String> = Vec::new();
    let ghost head: Seq<Seq<char>> = Seq::empty();
    proof {
        reveal_strlit("/");
        reveal_strlit(".");
        assert("/"@ =~= seq!['/']);
        assert("."@ =~= seq!['.']);
        assert(all[0] == names@[0]@);
    }
    if chars.len() > 0 && chars[0] == '/' {
        out.push("/".to_string());
        proof {
            head = seq![seq!['/']];
        }
    } else if text::same(names[0].as_str(), ".") {
        out.push(".".to_string());
        proof {
            head = seq![seq!['.']];
        }
    }
    assert(text::views(out@) =~= head);
    assert(all.take(0).filter(naming()) =~= Seq::<Seq<char>>::empty()) by {
        reveal(Seq::filter);
    }
    let mut i: usize = 0;
    while i < names.len()
        invariant
            i <= names.len(),
            all == text::views(names@),
            "."@ == seq!['.'],
            text::views(out@) == head + all.take(i as int).filter(naming()),
        decreases names.len() - i,
    {
        proof {
            seqs::lemma_filter_step(all, i as int, naming());
            assert(all[i as int] == names@[i as int]@);
        }
        let ghost before = text::views(out@);
        if !names[i].as_str().is_empty() && !text::same(names[i].as_str(), ".") {
            out.push(names[i].clone());
            assert(text::views(out@) =~= before.push(all[i as int]));
            assert(before.push(all[i as int]) =~= head + all.take(i as int).filter(naming()).push(
                all[i as int],
            ));
        }
        i = i + 1;
    }
    assert(all.take(names.len() as int) =~= all);
    out
}

/// Whether `path` lies at or below `base`.
pub open spec fn under(path: Seq<char>, base: Seq<char>) -> bool {
    components(base).is_prefix_of(components(path))
}

/// Whether `path` lies at or below `base`, component by component.
pub fn starts_with(path: &str, base: &str) -> (r: bool)
    ensures
        r == under(path@, base@),
{
    let p = split_path(path);
    let b = split_path(base);
    let ghost pv = text::views(p@);
    let ghost bv = text::views(b@);
    if b.len() > p.len() {
        return false;
    }
    let mut i: usize = 0;
    while i < b.len()
        invariant
            i <= b.len() <= p.len(),
            pv == text::views(p@),
            bv == text::views(b@),
            pv == components(path@),
            bv == components(base@),
            forall|j: int| 0 <= j < i ==> pv[j] == bv[j],
        decreases b.len() - i,
    {
        assert(pv[i as int] == p@[i as int]@ && bv[i as int] == b@[i as int]@);
        if p[i] != b[i] {
            assert(pv.take(bv.len() as int)[i as int] != bv[i as int]);
            return false;
        }
        i = i + 1;
    }
    assert(bv =~= pv.take(bv.len() as int));
    true
}

/// `name` taken relative to `dir`: an absolute name stands for itself.
pub open spec fn joined(dir: Seq<char>, name: Seq<char>) -> Seq<char> {
    if name.len() > 0 && name[0] == '/' {
        name
    } else if dir.len() == 0 || dir.last() == '/' {
        dir + name
    } else {
        dir + seq!['/'] + name
    }
}

/// `name` taken relative to `dir`.
pub fn join(dir: &str, name: &str) -> (r: String)
    ensures
        r@ == joined(dir@, name@),
{
    let d = text::chars_of(dir);
    let n = text::chars_of(name);
    if n.len() > 0 && n[0] == '/' {
        name.to_string()
    } else if d.len() == 0 || d[d.len() - 1] == '/' {
        text::cat(dir, name)
    } else {
        proof {
            reveal_strlit("/");
            assert("/"@ =~= seq!['/']);
        }
        text::cat3(dir, "/", name)
    }
}

/// The first piece at or after `i` that names something.
pub open spec fn next_name(p: Seq<Seq<char>>, i: int) -> int
    decreases p.len() - i,
{
    if 0 <= i < p.len() && !naming()(p[i]) {
        next_name(p, i + 1)
    } else {
        i
    }
}

/// One past the last piece before `n` that names something.
pub open spec fn last_name(p: Seq<Seq<char>>, n: int) -> int
    decreases n,
{
    if 0 < n <= p.len() && !naming()(p[n - 1]) {
        last_name(p, n - 1)
    } else {
        n
    }
}

/// Where the pieces `p` go on behind the next `k` names from `i` on.
pub open spec fn behind_names(p: Seq<Seq<char>>, i: int, k: nat) -> int
    decreases k,
{
    if k == 0 {
        i
    } else {
        let j = next_name(p, i);
        behind_names(
            p,
            if j < p.len() {
                j + 1
            } else {
                j
            },
            (k - 1) as nat,
        )
    }
}

/// A path without what stands for nothing at its end.
pub open spec fn right_trimmed(path: Seq<char>) -> Seq<char> {
    let p = text::pieces(path, '/');
    let b = last_name(p, p.len() as int);
    if b > 0 {
        text::joined(p.subrange(0, b), "/"@)
    } else if components(path).len() > 0 {
        components(path)[0]
    } else {
        Seq::empty()
    }
}

/// What is left of `path` below the directory `dir`, as it is written there but
/// for what stands for nothing at either end; `None` where the components of
/// `dir` do not begin those of `path`.
pub open spec fn below(path: Seq<char>, dir: Seq<char>) -> Option<Seq<char>> {
    if !under(path, dir) {
        None
    } else if components(dir).len() == 0 {
        Some(right_trimmed(path))
    } else {
        let p = text::pieces(path, '/');
        let a = next_name(
            p,
            behind_names(p, 0, text::pieces(dir, '/').filter(naming()).len()),
        );
        let b = last_name(p, p.len() as int);
        Some(
            if a < b {
                text::joined(p.subrange(a, b), "/"@)
            } else {
                Seq::empty()
            },
        )
    }
}

fn names_something(piece: &str) -> (r: bool)
    ensures
        r == naming()(piece@),
{
    proof {
        reveal_strlit(".");
        assert("."@ =~= seq!['.']);
    }
    !piece.is_empty() && !text::same(piece, ".")
}

fn find_name(p: &Vec<String>, i: usize) -> (r: usize)
    requires
        i <= p@.len(),
    ensures
        r == next_name(text::views(p@), i as int),
        i <= r <= p@.len(),
{
    let ghost all = text::views(p@);
    let mut j: usize = i;
    while j < p.len() && !names_something(p[j].as_str())
        invariant
            i <= j <= p@.len(),
            all == text::views(p@),
            next_name(all, i as int) == next_name(all, j as int),
        decreases p.len() - j,
    {
        assert(all[j as int] == p@[j as int]@);
        j = j + 1;
    }
    assert(j < p@.len() ==> all[j as int] == p@[j as int]@);
    j
}

/// The pieces from `a` to `b`, with slashes between them.
fn join_pieces(p: &Vec<String>, a: usize, b: usize) -> (r: String)
    requires
        a <= b <= p@.len(),
    ensures
        r@ == text::joined(text::views(p@).subrange(a as int, b as int), "/"@),
{
    let ghost pv = text::views(p@);
    let mut rest: Vec<String> = Vec::new();
    let mut n: usize = a;
    assert(text::views(rest@) =~= pv.subrange(a as int, a as int));
    while n < b
        invariant
            a <= n <= b <= p@.len(),
            pv == text::views(p@),
            text::views(rest@) == pv.subrange(a as int, n as int),
        decreases b - n,
    {
        let ghost before = text::views(rest@);
        assert(pv[n as int] == p@[n as int]@);
        rest.push(p[n].clone());
        assert(text::views(rest@) =~= before.push(pv[n as int]));
        assert(text::views(rest@) =~= pv.subrange(a as int, n + 1));
        n = n + 1;
    }
    text::join(rest.as_slice(), "/")
}

/// One past the last piece that names something.
fn find_last_name(p: &Vec<String>) -> (r: usize)
    ensures
        r == last_name(text::views(p@), p@.len() as int),
        r <= p@.len(),
{
    let ghost pv = text::views(p@);
    let mut b: usize = p.len();
    while b > 0 && !names_something(p[b - 1].as_str())
        invariant
            b <= p@.len(),
            pv == text::views(p@),
            last_name(pv, pv.len() as int) == last_name(pv, b as int),
        decreases b,
    {
        assert(pv[b - 1] == p@[b - 1]@);
        b = b - 1;
    }
    assert(b > 0 ==> pv[b - 1] == p@[b - 1]@);
    b
}

/// How many pieces name something.
fn count_names(p: &Vec<String>) -> (r: usize)
    ensures
        r == text::views(p@).filter(naming()).len(),
{
    let ghost pv = text::views(p@);
    let mut k: usize = 0;
    let mut n: usize = 0;
    assert(pv.take(0).filter(naming()).len() == 0) by {
        reveal(Seq::filter);
    }
    while k < p.len()
        invariant
            n <= k <= p@.len(),
            pv == text::views(p@),
            n == pv.take(k as int).filter(naming()).len(),
        decreases p.len() - k,
    {
        proof {
            seqs::lemma_filter_step(pv, k as int, naming());
            assert(pv[k as int] == p@[k as int]@);
        }
        if names_something(p[k].as_str()) {
            n = n + 1;
        }
        k = k + 1;
    }
    assert(pv.take(p@.len() as int) =~= pv);
    n
}

/// What is left of `path` below the directory `dir`, as it is written there.
pub fn strip_dir(path: &str, dir: &str) -> (r: Option<String>)
    ensures
        text::opt_view(r) == below(path@, dir@),
{
    if !starts_with(path, dir) {
        return None;
    }
    let p = text::split(path, '/');
    let ghost pv = text::views(p@);
    let b = find_last_name(&p);
    if split_path(dir).len() == 0 {
        if b > 0 {
            return Some(join_pieces(&p, 0, b));
        }
        let c = split_path(path);
        assert(text::views(c@).len() == c@.len());
        if c.len() > 0 {
            assert(text::views(c@)[0] == c@[0]@);
            return Some(c[0].clone());
        }
        return Some(String::new());
    }
    let names = count_names(&text::split(dir, '/'));
    let mut i: usize = 0;
    let mut k: usize = names;
    while k > 0
        invariant
            i <= p@.len(),
            pv == text::views(p@),
            behind_names(pv, 0, names as nat) == behind_names(pv, i as int, k as nat),
        decreases k,
    {
        let j = find_name(&p, i);
        i = if j < p.len() {
            j + 1
        } else {
            j
        };
        k = k - 1;
    }
    let a = find_name(&p, i);
    if a < b {
        Some(join_pieces(&p, a, b))
    } else {
        Some(String::new())
    }
}

/// The last name in a path.
pub open spec fn base_name(path: Seq<char>) -> Seq<char> {
    let names = text::pieces(path, '/').filter(naming());
    if names.len() == 0 {
        Seq::empty()
    } else {
        names.last()
    }
}

/// The last name in a path; empty where it has none.
pub fn file_name(path: &str) -> (r: String)
    ensures
        r@ == base_name(path@),
{
    let p = text::split(path, '/');
    let ghost all = text::views(p@);
    let mut i: usize = p.len();
    assert(all.take(i as int) =~= all);
    while i > 0
        invariant
            i <= p@.len(),
            all == text::views(p@),
            all == text::pieces(path@, '/'),
            all.filter(naming()) == all.take(i as int).filter(naming()),
        decreases i,
    {
        proof {
            seqs::lemma_filter_step(all, i - 1, naming());
            assert(all[i - 1] == p@[i - 1]@);
        }
        if names_something(p[i - 1].as_str()) {
            return p[i - 1].clone();
        }
        i = i - 1;
    }
    assert(all.take(0).filter(naming()).len() == 0) by {
        reveal(Seq::filter);
    }
    String::new()
}

/// A path with the home directory written `~`; as it is where it does not lie
/// below it.
pub open spec fn shortened(path: Seq<char>, home: Option<Seq<char>>) -> Seq<char> {
    match home {
        Some(h) => match below(path, h) {
            Some(rest) => if rest.len() > 0 {
                "~"@ + "/"@ + rest
            } else {
                "~"@
            },
            None => path,
        },
        None => path,
    }
}

/// Replace a leading home directory by `~`.
pub fn shorten_home(path: &str, home: Option<&str>) -> (r: String)
    ensures
        r@ == shortened(path@, text::opt_str_view(home)),
{
    if let Some(h) = home {
        if let Some(rest) = strip_dir(path, h) {
            if rest.as_str().is_empty() {
                return "~".to_string();
            }
            return text::cat3("~", "/", rest.as_str());
        }
    }
    path.to_string()
}

/// Every path lies at or below itself, and what lies below a path that lies below
/// another lies below that one.
pub proof fn law_under_is_an_order(a: Seq<char>, b: Seq<char>, c: Seq<char>)
    ensures
        under(a, a),
        under(a, b) && under(b, c) ==> under(a, c),
{
    let x = components(a);
    assert(x.subrange(0, x.len() as int) =~= x);
    if under(a, b) && under(b, c) {
        let y = components(b);
        let z = components(c);
        assert(z =~= x.subrange(0, z.len() as int)) by {
            assert forall|i: int| 0 <= i < z.len() implies z[i] == x[i] by {
                assert(z[i] == y.subrange(0, z.len() as int)[i]);
                assert(y[i] == x.subrange(0, y.len() as int)[i]);
            }
        }
    }
}

/// A relative name comes behind the directory and one slash; an absolute name
/// stands for itself.
pub proof fn law_joined_is_behind(dir: Seq<char>, name: Seq<char>)
    ensures
        name.len() > 0 && name[0] == '/' ==> joined(dir, name) == name,
        !(name.len() > 0 && name[0] == '/') && dir.len() > 0 && dir.last() != '/' ==> joined(
            dir,
            name,
        ) == dir + seq!['/'] + name,
        !(name.len() > 0 && name[0] == '/') && dir.len() > 0 && dir.last() == '/' ==> joined(
            dir,
            name,
        ) == dir + name,
{
}

/// A path that does not lie below the home directory is written as it is.
pub proof fn law_shortened_only_below_home(path: Seq<char>, home: Seq<char>)
    ensures
        !under(path, home) ==> shortened(path, Some(home)) == path,
        shortened(path, None) == path,
        under(path, home) ==> "~"@.is_prefix_of(shortened(path, Some(home))),
{
    if let Some(rest) = below(path, home) {
        let s = shortened(path, Some(home));
        if rest.len() > 0 {
            assert(s =~= "~"@ + ("/"@ + rest));
        }
        assert(s.subrange(0, "~"@.len() as int) =~= "~"@);
    }
}

/// A plain name: not empty, not `.`, and without a slash.
pub open spec fn plain(name: Seq<char>) -> bool {
    name.len() > 0 && name != seq!['.'] && !name.contains('/')
}

/// The last name of a path that a plain name was joined to is that name.
pub proof fn law_joined_is_found(dir: Seq<char>, name: Seq<char>)
    requires
        plain(name),
    ensures
        base_name(joined(dir, name)) == name,
{
    let path = joined(dir, name);
    text::law_single_piece(name, '/');
    assert(name[0] != '/') by {
        if name[0] == '/' {
            assert(name.contains('/'));
        }
    }
    let names = text::pieces(path, '/');
    assert(names.len() > 0 && names.last() == name) by {
        if dir.len() == 0 {
            assert(path =~= name);
        } else if dir.last() == '/' {
            let d = dir.drop_last();
            assert(path =~= d + seq!['/'] + name);
            text::law_pieces_of_both(d, name, '/');
        } else {
            text::law_pieces_of_both(dir, name, '/');
        }
    }
    assert(naming()(name));
    reveal(Seq::filter);
    assert(names.filter(naming()) == names.drop_last().filter(naming()).push(name));
}

} // verus!
