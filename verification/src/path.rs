//! Paths as text, written with `/` between their parts: their parts, and what two paths have in
//! common.

use crate::text::{
    lemma_split_concat, lemma_split_nonempty, lemma_split_single, same_text, split, split_at_each,
    views,
};
use vstd::prelude::*;

verus! {

/// The pieces between the slashes that name something: not the empty ones, and not `.`, but for a
/// `.` that a path begins with. A path that begins with a slash has the part `/` first.
pub open spec fn kept_parts(pieces: Seq<Seq<char>>, rooted: bool) -> Seq<Seq<char>>
    decreases pieces.len(),
{
    if pieces.len() == 0 {
        if rooted {
            seq!["/"@]
        } else {
            Seq::empty()
        }
    } else if pieces.last() == ""@ || (pieces.last() == "."@ && (rooted || pieces.len() > 1)) {
        kept_parts(pieces.drop_last(), rooted)
    } else {
        kept_parts(pieces.drop_last(), rooted).push(pieces.last())
    }
}

/// Whether a path begins with a slash.
pub open spec fn is_rooted(p: Seq<char>) -> bool {
    p.len() > 0 && p[0] == '/'
}

/// The parts of a path. Two paths are the same when their parts are: a slash at the end, a slash
/// written twice and a `.` in the middle do not count.
pub open spec fn path_parts(p: Seq<char>) -> Seq<Seq<char>> {
    kept_parts(split_at_each(p, '/'), is_rooted(p))
}

/// The parts of a path.
pub fn parts(p: &str) -> (r: Vec<String>)
    ensures
        views(r@) == path_parts(p@),
{
    let rooted: bool = p.unicode_len() > 0 && p.get_char(0) == '/';
    let pieces: Vec<String> = split(p, '/');
    let ghost all = views(pieces@);
    let mut r: Vec<String> = Vec::new();
    if rooted {
        r.push("/".to_owned());
    }
    let mut i: usize = 0;
    proof {
        assert(views(r@) =~= kept_parts(all.take(0), rooted));
    }
    while i < pieces.len()
        invariant
            i <= pieces@.len(),
            all == views(pieces@),
            views(r@) == kept_parts(all.take(i as int), rooted),
        decreases pieces@.len() - i,
    {
        let ghost shown = views(r@);
        proof {
            assert(all.take(i + 1).drop_last() =~= all.take(i as int));
            assert(all.take(i + 1).last() == pieces@[i as int]@);
        }
        let skipped: bool = same_text(&pieces[i], "") || (same_text(&pieces[i], ".") && (rooted || i
            > 0));
        if !skipped {
            r.push(pieces[i].clone());
            proof {
                assert(views(r@) =~= shown.push(pieces@[i as int]@));
            }
        }
        i = i + 1;
    }
    proof {
        assert(all.take(i as int) =~= all);
    }
    r
}

/// Whether two paths have the same parts.
pub open spec fn same_path_of(a: Seq<char>, b: Seq<char>) -> bool {
    path_parts(a) == path_parts(b)
}

/// Whether a path is the directory `base` or lies under it.
pub open spec fn is_under(p: Seq<char>, base: Seq<char>) -> bool {
    path_parts(base).is_prefix_of(path_parts(p))
}

/// Whether the first `n` texts of the two lists agree.
fn agree_upto(a: &Vec<String>, b: &Vec<String>, n: usize) -> (r: bool)
    requires
        n <= a@.len(),
        n <= b@.len(),
    ensures
        r == (views(a@).take(n as int) == views(b@).take(n as int)),
{
    let mut i: usize = 0;
    while i < n
        invariant
            i <= n <= a@.len(),
            n <= b@.len(),
            views(a@).take(i as int) == views(b@).take(i as int),
        decreases n - i,
    {
        if !same_text(&a[i], &b[i]) {
            proof {
                let ta = views(a@).take(n as int);
                let tb = views(b@).take(n as int);
                assert(ta[i as int] == a@[i as int]@);
                assert(tb[i as int] == b@[i as int]@);
            }
            return false;
        }
        proof {
            assert forall|k: int| 0 <= k < i + 1 implies views(a@)[k] == views(b@)[k] by {
                if k < i {
                    assert(views(a@).take(i as int)[k] == views(b@).take(i as int)[k]);
                }
            }
            assert(views(a@).take(i + 1) =~= views(b@).take(i + 1));
        }
        i = i + 1;
    }
    true
}

/// Whether two paths have the same parts.
pub fn same_path(a: &str, b: &str) -> (r: bool)
    ensures
        r == same_path_of(a@, b@),
{
    let x: Vec<String> = parts(a);
    let y: Vec<String> = parts(b);
    if x.len() != y.len() {
        proof {
            assert(views(x@).len() != views(y@).len());
        }
        return false;
    }
    let r: bool = agree_upto(&x, &y, x.len());
    proof {
        assert(views(x@).take(x@.len() as int) =~= views(x@));
        assert(views(y@).take(y@.len() as int) =~= views(y@));
    }
    r
}

/// Whether a path is the directory `base` or lies under it.
pub fn path_starts_with(p: &str, base: &str) -> (r: bool)
    ensures
        r == is_under(p@, base@),
{
    let x: Vec<String> = parts(p);
    let y: Vec<String> = parts(base);
    if x.len() < y.len() {
        return false;
    }
    let r: bool = agree_upto(&x, &y, y.len());
    proof {
        assert(views(y@).take(y@.len() as int) =~= views(y@));
        assert(views(x@).take(y@.len() as int) == views(x@).subrange(0, y@.len() as int));
    }
    r
}

/// The last part of a path, if it names a file or directory.
pub open spec fn file_name_of(p: Seq<char>) -> Option<Seq<char>> {
    let ps = path_parts(p);
    if ps.len() == 0 || ps.last() == "/"@ || ps.last() == "."@ || ps.last() == ".."@ {
        None
    } else {
        Some(ps.last())
    }
}

/// The last part of a path, if it names a file or directory.
pub fn file_name(p: &str) -> (r: Option<String>)
    ensures
        crate::text::opt_text(r) == file_name_of(p@),
{
    let ps: Vec<String> = parts(p);
    if ps.len() == 0 {
        return None;
    }
    let last: &String = &ps[ps.len() - 1];
    proof {
        assert(views(ps@).last() == ps@.last()@);
    }
    if same_text(last, "/") || same_text(last, ".") || same_text(last, "..") {
        None
    } else {
        Some(last.clone())
    }
}

/// A path lies under itself, and what lies under a directory that lies under a third lies under the
/// third; two paths that lie under each other are the same.
pub proof fn lemma_under(a: Seq<char>, b: Seq<char>, c: Seq<char>)
    ensures
        is_under(a, a),
        is_under(a, b) && is_under(b, c) ==> is_under(a, c),
        is_under(a, b) && is_under(b, a) ==> same_path_of(a, b),
{
    let x = path_parts(a);
    let y = path_parts(b);
    let z = path_parts(c);
    assert(x.subrange(0, x.len() as int) =~= x);
    if is_under(a, b) && is_under(b, c) {
        assert(z =~= x.subrange(0, z.len() as int)) by {
            assert forall|k: int| 0 <= k < z.len() implies z[k] == x[k] by {
                assert(z[k] == y.subrange(0, z.len() as int)[k]);
                assert(y[k] == x.subrange(0, y.len() as int)[k]);
            }
        }
    }
    if is_under(a, b) && is_under(b, a) {
        assert(x.subrange(0, y.len() as int) =~= x);
    }
}

proof fn lemma_kept_parts_push(pieces: Seq<Seq<char>>, piece: Seq<char>, rooted: bool)
    ensures
        piece.len() == 0 ==> kept_parts(pieces.push(piece), rooted) == kept_parts(pieces, rooted),
        piece == "."@ && pieces.len() > 0 ==> kept_parts(pieces.push(piece), rooted) == kept_parts(
            pieces,
            rooted,
        ),
        piece.len() > 0 && piece != "."@ ==> kept_parts(pieces.push(piece), rooted) == kept_parts(
            pieces,
            rooted,
        ).push(piece),
{
    reveal_strlit("");
    assert(pieces.push(piece).drop_last() =~= pieces);
    if piece.len() == 0 {
        assert(piece =~= ""@);
    }
}

/// One step down a path adds one component behind the others; a slash at the end and a step to `.`
/// add none.
pub proof fn lemma_path_step(base: Seq<char>, name: Seq<char>)
    requires
        base.len() > 0,
        !name.contains('/'),
    ensures
        name.len() > 0 && name != "."@ ==> path_parts(base.push('/') + name) == path_parts(
            base,
        ).push(name),
        path_parts(base.push('/')) == path_parts(base),
        name == "."@ ==> path_parts(base.push('/') + name) == path_parts(base),
{
    let whole = base.push('/') + name;
    let pieces = split_at_each(base, '/');
    lemma_split_concat(base, name, '/');
    lemma_split_single(name, '/');
    lemma_split_nonempty(base, '/');
    assert(pieces + seq![name] =~= pieces.push(name));
    assert(whole[0] == base[0]);
    lemma_kept_parts_push(pieces, name, is_rooted(base));
    let none = Seq::<char>::empty();
    lemma_split_concat(base, none, '/');
    lemma_split_single(none, '/');
    assert(pieces + seq![none] =~= pieces.push(none));
    assert(base.push('/') + none =~= base.push('/'));
    lemma_kept_parts_push(pieces, none, is_rooted(base));
}

/// A relative path of one name has that component alone; an absolute one starts with the root.
pub proof fn lemma_path_start(name: Seq<char>)
    requires
        name.len() > 0,
        !name.contains('/'),
    ensures
        path_parts(name) == seq![name],
        name != "."@ ==> path_parts(seq!['/'] + name) == seq![seq!['/'], name],
        path_parts(seq!['/']) == seq![seq!['/']],
{
    reveal_strlit("");
    reveal_strlit("/");
    reveal_strlit(".");
    assert("/"@ =~= seq!['/']);
    let none = Seq::<char>::empty();
    assert(none =~= ""@);
    assert(name.contains(name[0]));
    lemma_split_single(name, '/');
    lemma_split_single(none, '/');
    assert(seq![name].drop_last() =~= Seq::<Seq<char>>::empty());
    assert(kept_parts(Seq::<Seq<char>>::empty(), false) =~= Seq::<Seq<char>>::empty());
    assert(path_parts(name) =~= seq![name]);
    lemma_split_concat(none, name, '/');
    assert(none.push('/') + name =~= seq!['/'] + name);
    assert(seq![none] + seq![name] =~= seq![none].push(name));
    lemma_kept_parts_push(seq![none], name, true);
    lemma_kept_parts_push(Seq::empty(), none, true);
    assert(Seq::<Seq<char>>::empty().push(none) =~= seq![none]);
    assert(kept_parts(seq![none], true) =~= seq!["/"@]);
    if name != "."@ {
        assert(path_parts(seq!['/'] + name) =~= seq![seq!['/'], name]);
    }
    lemma_split_concat(none, none, '/');
    assert(none.push('/') + none =~= seq!['/']);
    assert(seq![none] + seq![none] =~= seq![none].push(none));
    lemma_kept_parts_push(seq![none], none, true);
    assert(path_parts(seq!['/']) =~= seq![seq!['/']]);
}

/// The name of a file is the last component of its path, whether or not a slash stands behind it;
/// what ends in `..` has none. What lies a step below a directory lies under it.
pub proof fn lemma_file_name(base: Seq<char>, name: Seq<char>)
    requires
        base.len() > 0,
        name.len() > 0,
        !name.contains('/'),
        name != "."@,
    ensures
        name != ".."@ ==> file_name_of(base.push('/') + name) == Some(name),
        name != ".."@ ==> file_name_of(base.push('/') + name.push('/')) == Some(name),
        name != ".."@ ==> file_name_of(name) == Some(name),
        name == ".."@ ==> file_name_of(base.push('/') + name) is None,
        is_under(base.push('/') + name, base),
        !is_under(base, base.push('/') + name),
        same_path_of(base.push('/'), base),
{
    reveal_strlit("/");
    lemma_path_step(base, name);
    lemma_path_step(base.push('/') + name, name);
    lemma_path_start(name);
    assert((base.push('/') + name).push('/') =~= base.push('/') + name.push('/'));
    let p = path_parts(base);
    assert(p.push(name).last() == name);
    assert(name != "/"@) by {
        if name == "/"@ {
            assert(name[0] == '/');
            assert(name.contains('/'));
        }
    }
    assert(p.is_prefix_of(p.push(name)));
    assert(!p.push(name).is_prefix_of(p));
}

proof fn lemma_kept_part(pieces: Seq<Seq<char>>, rooted: bool)
    ensures
        forall|i: int|
            0 <= i < kept_parts(pieces, rooted).len() ==> #[trigger] kept_parts(pieces, rooted)[i]
                == "/"@ || (pieces.contains(kept_parts(pieces, rooted)[i]) && kept_parts(
                pieces,
                rooted,
            )[i].len() > 0),
    decreases pieces.len(),
{
    reveal_strlit("");
    let r = kept_parts(pieces, rooted);
    if pieces.len() > 0 {
        let front = pieces.drop_last();
        let k = kept_parts(front, rooted);
        lemma_kept_part(front, rooted);
        assert forall|i: int| 0 <= i < r.len() implies #[trigger] r[i] == "/"@ || (pieces.contains(
            r[i],
        ) && r[i].len() > 0) by {
            if i < k.len() {
                assert(r[i] == k[i]);
                if k[i] != "/"@ {
                    let j = choose|j: int| 0 <= j < front.len() && front[j] == k[i];
                    assert(pieces[j] == r[i]);
                }
            } else {
                assert(pieces[pieces.len() - 1] == r[i]);
                if r[i].len() == 0 {
                    assert(r[i] =~= ""@);
                }
            }
        }
    }
}

/// The name of a file is one component that names something: it is not empty, holds no slash, and
/// is neither `.` nor `..`.
pub proof fn lemma_file_name_is_name(p: Seq<char>)
    ensures
        file_name_of(p) matches Some(n) ==> n.len() > 0 && !n.contains('/') && n != "."@ && n
            != ".."@ && path_parts(p).len() > 0 && path_parts(p).last() == n,
        file_name_of(p) is None <==> path_parts(p).len() == 0 || path_parts(p).last() == "/"@
            || path_parts(p).last() == "."@ || path_parts(p).last() == ".."@,
{
    reveal_strlit("/");
    let pieces = split_at_each(p, '/');
    let ps = path_parts(p);
    lemma_kept_part(pieces, is_rooted(p));
    crate::text::lemma_pieces_joined(p, '/');
    if file_name_of(p) is Some {
        let n = ps[ps.len() - 1];
        assert(n != "/"@);
        let j = choose|j: int| 0 <= j < pieces.len() && pieces[j] == n;
        assert(!pieces[j].contains('/'));
    }
}

} // verus!
