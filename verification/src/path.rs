//! Paths compared as `std::path::Path` compares them on Unix: component by
//! component, so that repeated separators, a trailing separator and `.`
//! components (but a leading one) make no difference.

use vstd::prelude::*;
use crate::model::string_views;
use crate::text::{chars_of, join, push_char};

verus! {

/// The pieces of `p` between `/` separators, empty pieces included; there
/// is always at least one.
pub open spec fn path_pieces(p: Seq<char>) -> Seq<Seq<char>>
    decreases p.len(),
{
    if p.len() == 0 {
        seq![Seq::empty()]
    } else {
        let prev = path_pieces(p.drop_last());
        if p.last() == '/' {
            prev.push(Seq::empty())
        } else {
            prev.update(prev.len() - 1, prev.last().push(p.last()))
        }
    }
}

/// The piece `.`.
pub open spec fn is_dot(s: Seq<char>) -> bool {
    s.len() == 1 && s[0] == '.'
}

/// The pieces that name something: neither empty nor `.`.
pub open spec fn normal_pieces(pieces: Seq<Seq<char>>) -> Seq<Seq<char>>
    decreases pieces.len(),
{
    if pieces.len() == 0 {
        Seq::empty()
    } else {
        let prev = normal_pieces(pieces.drop_last());
        if pieces.last().len() == 0 || is_dot(pieces.last()) {
            prev
        } else {
            prev.push(pieces.last())
        }
    }
}

/// The path starts at the root.
pub open spec fn is_rooted(p: Seq<char>) -> bool {
    p.len() > 0 && p[0] == '/'
}

/// The components of a path: the root `/` if it has one, a leading `.` of
/// a relative path, then every piece that is neither empty nor `.`.
pub open spec fn path_components(p: Seq<char>) -> Seq<Seq<char>> {
    (if is_rooted(p) {
        seq![seq!['/']]
    } else {
        Seq::empty()
    }) + (if !is_rooted(p) && is_dot(path_pieces(p)[0]) {
        seq![seq!['.']]
    } else {
        Seq::empty()
    }) + normal_pieces(path_pieces(p))
}

/// Two paths are the same path when their components are.
pub open spec fn same_path_spec(a: Seq<char>, b: Seq<char>) -> bool {
    path_components(a) == path_components(b)
}

proof fn lemma_path_pieces_nonempty(p: Seq<char>)
    ensures
        path_pieces(p).len() >= 1,
    decreases p.len(),
{
    if p.len() > 0 {
        lemma_path_pieces_nonempty(p.drop_last());
    }
}

fn is_dot_string(s: &String) -> (r: bool)
    ensures
        r == is_dot(s@),
{
    let cs = chars_of(s.as_str());
    cs.len() == 1 && cs[0] == '.'
}

fn single(c: char) -> (r: String)
    ensures
        r@ == seq![c],
{
    let mut s = String::new();
    push_char(&mut s, c);
    proof {
        assert(s@ =~= seq![c]);
    }
    s
}

/// The pieces of `p` between `/` separators.
fn pieces_of(p: &str) -> (r: Vec<String>)
    ensures
        string_views(r@) == path_pieces(p@),
{
    let cs = chars_of(p);
    let mut pieces: Vec<String> = Vec::new();
    let mut cur = String::new();
    let mut i: usize = 0;
    proof {
        assert(cs@.take(0) =~= Seq::<char>::empty());
        assert(string_views(pieces@).push(cur@) =~= seq![Seq::<char>::empty()]);
    }
    while i < cs.len()
        invariant
            i <= cs@.len(),
            cs@ == p@,
            string_views(pieces@).push(cur@) == path_pieces(cs@.take(i as int)),
        decreases cs.len() - i,
    {
        let ghost before = string_views(pieces@).push(cur@);
        proof {
            assert(cs@.take(i + 1).drop_last() =~= cs@.take(i as int));
            assert(cs@.take(i + 1).last() == cs@[i as int]);
        }
        if cs[i] == '/' {
            let done = cur;
            pieces.push(done);
            cur = String::new();
            proof {
                assert(string_views(pieces@).push(cur@) =~= before.push(Seq::<char>::empty()));
            }
        } else {
            let ghost old_cur = cur@;
            push_char(&mut cur, cs[i]);
            proof {
                assert(string_views(pieces@).push(cur@) =~= before.update(
                    before.len() - 1,
                    old_cur.push(cs@[i as int]),
                ));
            }
        }
        i = i + 1;
    }
    pieces.push(cur);
    proof {
        assert(cs@.take(cs@.len() as int) =~= cs@);
    }
    pieces
}

/// The components of `p`, as `Path::components` gives them on Unix.
pub fn components_of(p: &str) -> (r: Vec<String>)
    ensures
        string_views(r@) == path_components(p@),
{
    let pieces = pieces_of(p);
    proof {
        lemma_path_pieces_nonempty(p@);
    }
    let cs = chars_of(p);
    let rooted = cs.len() > 0 && cs[0] == '/';
    let mut out: Vec<String> = Vec::new();
    if rooted {
        out.push(single('/'));
    } else if is_dot_string(&pieces[0]) {
        out.push(single('.'));
    }
    let ghost head = string_views(out@);
    proof {
        assert(head =~= (if is_rooted(p@) {
            seq![seq!['/']]
        } else {
            Seq::empty()
        }) + (if !is_rooted(p@) && is_dot(path_pieces(p@)[0]) {
            seq![seq!['.']]
        } else {
            Seq::empty()
        }));
    }
    let mut j: usize = 0;
    while j < pieces.len()
        invariant
            j <= pieces@.len(),
            string_views(pieces@) == path_pieces(p@),
            string_views(out@) == head + normal_pieces(string_views(pieces@).take(j as int)),
        decreases pieces.len() - j,
    {
        let ghost views = string_views(pieces@);
        proof {
            assert(views.take(j + 1).drop_last() =~= views.take(j as int));
            assert(views.take(j + 1).last() == pieces@[j as int]@);
        }
        if !pieces[j].as_str().is_empty() && !is_dot_string(&pieces[j]) {
            let ghost before = string_views(out@);
            out.push(pieces[j].clone());
            proof {
                assert(string_views(out@) =~= before.push(pieces@[j as int]@));
            }
        }
        j = j + 1;
    }
    proof {
        assert(string_views(pieces@).take(pieces@.len() as int) =~= string_views(pieces@));
    }
    out
}

/// Whether two paths are the same path (`==` on `Path`, on Unix).
pub fn same_path(a: &str, b: &str) -> (r: bool)
    ensures
        r == same_path_spec(a@, b@),
{
    let x = components_of(a);
    let y = components_of(b);
    if x.len() != y.len() {
        assert(string_views(x@).len() != string_views(y@).len());
        return false;
    }
    let mut i: usize = 0;
    while i < x.len()
        invariant
            i <= x@.len(),
            x@.len() == y@.len(),
            string_views(x@) == path_components(a@),
            string_views(y@) == path_components(b@),
            forall|j: int| 0 <= j < i ==> x@[j]@ == y@[j]@,
        decreases x.len() - i,
    {
        if x[i] != y[i] {
            assert(string_views(x@)[i as int] != string_views(y@)[i as int]);
            return false;
        }
        i = i + 1;
    }
    assert(string_views(x@) =~= string_views(y@));
    true
}

/// Two paths are the same path exactly when their component sequences are
/// equal: a difference in any component, in any position, tells them apart.
pub proof fn law_same_path_is_same_components(a: Seq<char>, b: Seq<char>)
    ensures
        same_path_spec(a, b) <==> path_components(a) == path_components(b),
        forall|i: int|
            0 <= i < path_components(a).len() && 0 <= i < path_components(b).len()
                && path_components(a)[i] != path_components(b)[i] ==> !same_path_spec(a, b),
{
}

/// A path is its pieces joined by `/`.
pub proof fn lemma_pieces_join(p: Seq<char>)
    ensures
        join(path_pieces(p), seq!['/']) == p,
    decreases p.len(),
{
    if p.len() > 0 {
        let q = p.drop_last();
        let c = p.last();
        lemma_pieces_join(q);
        lemma_path_pieces_nonempty(q);
        let pq = path_pieces(q);
        if c == '/' {
            let pp = pq.push(Seq::<char>::empty());
            assert(pp.drop_last() =~= pq);
            assert(join(pp, seq!['/']) =~= p);
        } else {
            let n = pq.len();
            let pp = pq.update(n - 1, pq[n - 1].push(c));
            if n == 1 {
                assert(join(pp, seq!['/']) == pp[0]);
                assert(pp[0] =~= p);
            } else {
                assert(pp.drop_last() =~= pq.drop_last());
                assert(pp.last() == pq[n - 1].push(c));
                let head = join(pq.drop_last(), seq!['/']);
                assert(join(pq, seq!['/']) == head + seq!['/'] + pq.last());
                assert(join(pp, seq!['/']) == head + seq!['/'] + pq[n - 1].push(c));
                assert(p =~= q.push(c));
                assert(head + seq!['/'] + pq[n - 1].push(c) =~= (head + seq!['/'] + pq[n - 1]).push(c));
            }
        }
    }
}

/// An absolute path with no empty piece, no `.` piece and no trailing `/`.
pub open spec fn is_canonical_absolute(p: Seq<char>) -> bool {
    let pc = path_pieces(p);
    &&& pc.len() >= 2
    &&& pc[0].len() == 0
    &&& forall|i: int| 1 <= i < pc.len() ==> (#[trigger] pc[i]).len() > 0 && !is_dot(pc[i])
}

proof fn lemma_join_rooted(lines: Seq<Seq<char>>)
    requires
        lines.len() >= 2,
        lines[0].len() == 0,
    ensures
        join(lines, seq!['/']).len() > 0,
        join(lines, seq!['/'])[0] == '/',
    decreases lines.len(),
{
    if lines.len() > 2 {
        lemma_join_rooted(lines.drop_last());
    } else {
        assert(join(lines.drop_last(), seq!['/']) == lines[0]);
    }
}

proof fn lemma_canonical_normal(pc: Seq<Seq<char>>)
    requires
        pc.len() >= 1,
        pc[0].len() == 0,
        forall|i: int| 1 <= i < pc.len() ==> (#[trigger] pc[i]).len() > 0 && !is_dot(pc[i]),
    ensures
        normal_pieces(pc) == pc.drop_first(),
    decreases pc.len(),
{
    if pc.len() == 1 {
        assert(normal_pieces(pc.drop_last()) =~= Seq::<Seq<char>>::empty());
        assert(pc.drop_first() =~= Seq::<Seq<char>>::empty());
    } else {
        let t = pc.drop_last();
        assert forall|i: int| 1 <= i < t.len() implies (#[trigger] t[i]).len() > 0 && !is_dot(t[i]) by {
            assert(t[i] == pc[i]);
        }
        lemma_canonical_normal(t);
        assert(pc[pc.len() - 1] == pc.last());
        assert(pc.drop_first() =~= t.drop_first().push(pc.last()));
    }
}

proof fn lemma_canonical_components(p: Seq<char>)
    requires
        is_canonical_absolute(p),
    ensures
        path_components(p) == seq![seq!['/']] + path_pieces(p).drop_first(),
{
    let pc = path_pieces(p);
    lemma_pieces_join(p);
    lemma_join_rooted(pc);
    lemma_canonical_normal(pc);
    assert(is_rooted(p));
}

/// For absolute paths written without empty pieces, `.` pieces or a trailing
/// `/`, being the same path is being the same text.
pub proof fn law_canonical_paths_same_iff_equal(a: Seq<char>, b: Seq<char>)
    requires
        is_canonical_absolute(a),
        is_canonical_absolute(b),
    ensures
        same_path_spec(a, b) <==> a == b,
{
    if same_path_spec(a, b) {
        lemma_canonical_components(a);
        lemma_canonical_components(b);
        let pa = path_pieces(a);
        let pb = path_pieces(b);
        assert(pa.drop_first() =~= path_components(a).skip(1));
        assert(pb.drop_first() =~= path_components(b).skip(1));
        assert(pa =~= seq![pa[0]] + pa.drop_first());
        assert(pb =~= seq![pb[0]] + pb.drop_first());
        assert(pa[0] =~= pb[0]);
        assert(pa =~= pb);
        lemma_pieces_join(a);
        lemma_pieces_join(b);
    }
}

/// A trailing `/` does not change a non-empty path.
pub proof fn law_trailing_separator(p: Seq<char>)
    requires
        p.len() > 0,
    ensures
        same_path_spec(p.push('/'), p),
{
    lemma_path_pieces_nonempty(p);
    let q = p.push('/');
    assert(q.drop_last() =~= p);
    assert(q[0] == p[0]);
    let pp = path_pieces(p);
    assert(path_pieces(q) == pp.push(Seq::<char>::empty()));
    assert(path_pieces(q)[0] == pp[0]);
    assert(pp.push(Seq::<char>::empty()).drop_last() =~= pp);
    assert(normal_pieces(path_pieces(q)) == normal_pieces(pp));
}

} // verus!
