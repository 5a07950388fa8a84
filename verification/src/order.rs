//! The order in which MCP-served skills are listed: by server name, then by
//! skill name, each compared byte by byte as `String`s are.

use vstd::prelude::*;
use vstd::utf8::encode_utf8;
use crate::model::SkillMetadata;

verus! {

/// The result of comparing two values.
#[derive(Debug, Clone, Copy, PartialEq, Eq, Structural)]
pub enum Order {
    Less,
    Equal,
    Greater,
}

/// Lexicographic order of byte strings, a proper prefix coming first.
pub open spec fn bytes_order(a: Seq<u8>, b: Seq<u8>) -> Order
    decreases a.len(),
{
    if a.len() == 0 {
        if b.len() == 0 {
            Order::Equal
        } else {
            Order::Less
        }
    } else if b.len() == 0 {
        Order::Greater
    } else if a[0] < b[0] {
        Order::Less
    } else if a[0] > b[0] {
        Order::Greater
    } else {
        bytes_order(a.drop_first(), b.drop_first())
    }
}

/// The order of two strings: that of their UTF-8 bytes.
pub open spec fn text_order(a: Seq<char>, b: Seq<char>) -> Order {
    bytes_order(encode_utf8(a), encode_utf8(b))
}

/// The order of two optional strings: `None` first.
pub open spec fn opt_text_order(a: Option<String>, b: Option<String>) -> Order {
    match (a, b) {
        (None, None) => Order::Equal,
        (None, Some(_)) => Order::Less,
        (Some(_), None) => Order::Greater,
        (Some(x), Some(y)) => text_order(x@, y@),
    }
}

/// The listing order of skills: by server name, then by name.
pub open spec fn skill_order(a: SkillMetadata, b: SkillMetadata) -> Order {
    match opt_text_order(a.server_name, b.server_name) {
        Order::Equal => text_order(a.name@, b.name@),
        o => o,
    }
}

/// `a` may come before `b`.
pub open spec fn listed_before(a: SkillMetadata, b: SkillMetadata) -> bool {
    skill_order(a, b) != Order::Greater
}

/// Where `x` goes in `s`: after the last element that may come before it.
pub open spec fn insertion_point(s: Seq<SkillMetadata>, x: SkillMetadata) -> int
    decreases s.len(),
{
    if s.len() == 0 {
        0
    } else if listed_before(s.last(), x) {
        s.len() as int
    } else {
        insertion_point(s.drop_last(), x)
    }
}

/// `s` sorted by server name then name, stably: elements of equal key keep
/// their order.
pub open spec fn sorted_by_server_and_name(s: Seq<SkillMetadata>) -> Seq<SkillMetadata>
    decreases s.len(),
{
    if s.len() == 0 {
        Seq::empty()
    } else {
        let prev = sorted_by_server_and_name(s.drop_last());
        prev.insert(insertion_point(prev, s.last()), s.last())
    }
}

/// Every element may come before every later one.
pub open spec fn is_listing_sorted(s: Seq<SkillMetadata>) -> bool {
    forall|i: int, j: int| 0 <= i < j < s.len() ==> listed_before(#[trigger] s[i], #[trigger] s[j])
}

pub proof fn lemma_bytes_order_equal(a: Seq<u8>, b: Seq<u8>)
    ensures
        (bytes_order(a, b) == Order::Equal) <==> (a == b),
    decreases a.len(),
{
    if a.len() == 0 && b.len() == 0 {
        assert(a =~= b);
    } else if a.len() > 0 && b.len() > 0 && a[0] == b[0] {
        lemma_bytes_order_equal(a.drop_first(), b.drop_first());
        if a.drop_first() == b.drop_first() {
            assert(a =~= seq![a[0]] + a.drop_first());
            assert(b =~= seq![b[0]] + b.drop_first());
        }
    }
}

pub proof fn lemma_bytes_order_flip(a: Seq<u8>, b: Seq<u8>)
    ensures
        (bytes_order(a, b) == Order::Less) <==> (bytes_order(b, a) == Order::Greater),
        (bytes_order(a, b) == Order::Equal) <==> (bytes_order(b, a) == Order::Equal),
    decreases a.len(),
{
    if a.len() > 0 && b.len() > 0 && a[0] == b[0] {
        lemma_bytes_order_flip(a.drop_first(), b.drop_first());
    }
}

pub proof fn lemma_bytes_order_transitive(a: Seq<u8>, b: Seq<u8>, c: Seq<u8>)
    requires
        bytes_order(a, b) != Order::Greater,
        bytes_order(b, c) != Order::Greater,
    ensures
        bytes_order(a, c) != Order::Greater,
        bytes_order(a, b) == Order::Less ==> bytes_order(a, c) == Order::Less,
        bytes_order(b, c) == Order::Less ==> bytes_order(a, c) == Order::Less,
    decreases a.len(),
{
    if a.len() > 0 && b.len() > 0 && c.len() > 0 && a[0] == b[0] && b[0] == c[0] {
        lemma_bytes_order_transitive(a.drop_first(), b.drop_first(), c.drop_first());
    }
}

pub proof fn lemma_skill_order_flip(a: SkillMetadata, b: SkillMetadata)
    ensures
        (skill_order(a, b) == Order::Less) <==> (skill_order(b, a) == Order::Greater),
        (skill_order(a, b) == Order::Equal) <==> (skill_order(b, a) == Order::Equal),
{
    if let (Some(x), Some(y)) = (a.server_name, b.server_name) {
        lemma_bytes_order_flip(encode_utf8(x@), encode_utf8(y@));
    }
    lemma_bytes_order_flip(encode_utf8(a.name@), encode_utf8(b.name@));
}

proof fn lemma_opt_order_transitive(a: Option<String>, b: Option<String>, c: Option<String>)
    requires
        opt_text_order(a, b) != Order::Greater,
        opt_text_order(b, c) != Order::Greater,
    ensures
        opt_text_order(a, c) != Order::Greater,
        opt_text_order(a, b) == Order::Less ==> opt_text_order(a, c) == Order::Less,
        opt_text_order(b, c) == Order::Less ==> opt_text_order(a, c) == Order::Less,
{
    if let (Some(x), Some(y), Some(z)) = (a, b, c) {
        lemma_bytes_order_transitive(encode_utf8(x@), encode_utf8(y@), encode_utf8(z@));
    }
}

pub proof fn lemma_listed_before_transitive(a: SkillMetadata, b: SkillMetadata, c: SkillMetadata)
    requires
        listed_before(a, b),
        listed_before(b, c),
    ensures
        listed_before(a, c),
{
    lemma_opt_order_transitive(a.server_name, b.server_name, c.server_name);
    if opt_text_order(a.server_name, b.server_name) == Order::Equal && opt_text_order(
        b.server_name,
        c.server_name,
    ) == Order::Equal {
        lemma_bytes_order_transitive(
            encode_utf8(a.name@),
            encode_utf8(b.name@),
            encode_utf8(c.name@),
        );
    }
}

pub proof fn lemma_listed_before_total(a: SkillMetadata, b: SkillMetadata)
    ensures
        listed_before(a, b) || listed_before(b, a),
{
    lemma_skill_order_flip(a, b);
}

pub proof fn lemma_insertion_point_splits(s: Seq<SkillMetadata>, x: SkillMetadata)
    requires
        is_listing_sorted(s),
    ensures
        0 <= insertion_point(s, x) <= s.len(),
        forall|i: int| 0 <= i < insertion_point(s, x) ==> listed_before(#[trigger] s[i], x),
        forall|i: int| insertion_point(s, x) <= i < s.len() ==> !listed_before(#[trigger] s[i], x),
    decreases s.len(),
{
    if s.len() > 0 {
        if listed_before(s.last(), x) {
            assert forall|i: int| 0 <= i < s.len() implies listed_before(#[trigger] s[i], x) by {
                if i < s.len() - 1 {
                    assert(listed_before(s[i], s[s.len() - 1]));
                    lemma_listed_before_transitive(s[i], s.last(), x);
                }
            }
        } else {
            let t = s.drop_last();
            assert(is_listing_sorted(t)) by {
                assert forall|i: int, j: int| 0 <= i < j < t.len() implies listed_before(
                    #[trigger] t[i],
                    #[trigger] t[j],
                ) by {
                    assert(t[i] == s[i] && t[j] == s[j]);
                }
            }
            lemma_insertion_point_splits(t, x);
            assert forall|i: int| 0 <= i < insertion_point(s, x) implies listed_before(#[trigger] s[i], x) by {
                assert(s[i] == t[i]);
            }
            assert forall|i: int| insertion_point(s, x) <= i < s.len() implies !listed_before(#[trigger] s[i], x) by {
                if i < s.len() - 1 {
                    assert(s[i] == t[i]);
                }
            }
        }
    }
}

/// Inserting at the insertion point keeps a sorted sequence sorted.
proof fn lemma_insert_keeps_sorted(s: Seq<SkillMetadata>, x: SkillMetadata)
    requires
        is_listing_sorted(s),
    ensures
        is_listing_sorted(s.insert(insertion_point(s, x), x)),
{
    lemma_insertion_point_splits(s, x);
    let p = insertion_point(s, x);
    let r = s.insert(p, x);
    assert forall|i: int, j: int| 0 <= i < j < r.len() implies listed_before(#[trigger] r[i], #[trigger] r[j]) by {
        if j < p {
            assert(r[i] == s[i] && r[j] == s[j]);
        } else if j == p {
            assert(r[i] == s[i] && r[j] == x);
        } else if i < p {
            assert(r[i] == s[i] && r[j] == s[j - 1]);
            assert(listed_before(s[i], s[j - 1]));
        } else if i == p {
            assert(r[i] == x && r[j] == s[j - 1]);
            assert(!listed_before(s[j - 1], x));
            lemma_listed_before_total(s[j - 1], x);
        } else {
            assert(r[i] == s[i - 1] && r[j] == s[j - 1]);
        }
    }
}

/// The listing order sorts: every skill may come before every later one.
pub proof fn law_listing_is_sorted(s: Seq<SkillMetadata>)
    ensures
        is_listing_sorted(sorted_by_server_and_name(s)),
    decreases s.len(),
{
    if s.len() > 0 {
        law_listing_is_sorted(s.drop_last());
        lemma_insert_keeps_sorted(sorted_by_server_and_name(s.drop_last()), s.last());
    }
}

/// Sorting for the listing neither loses nor adds a skill.
pub proof fn law_listing_is_permutation(s: Seq<SkillMetadata>)
    ensures
        sorted_by_server_and_name(s).to_multiset() == s.to_multiset(),
    decreases s.len(),
{
    broadcast use vstd::seq_lib::group_to_multiset_ensures;
    if s.len() > 0 {
        let prev = sorted_by_server_and_name(s.drop_last());
        law_listing_is_permutation(s.drop_last());
        lemma_insertion_point_bounds(prev, s.last());
        vstd::seq_lib::to_multiset_insert(prev, insertion_point(prev, s.last()), s.last());
        assert(s =~= s.drop_last().push(s.last()));
        vstd::seq_lib::to_multiset_build(s.drop_last(), s.last());
    }
}

proof fn lemma_insertion_point_bounds(s: Seq<SkillMetadata>, x: SkillMetadata)
    ensures
        0 <= insertion_point(s, x) <= s.len(),
    decreases s.len(),
{
    if s.len() > 0 {
        lemma_insertion_point_bounds(s.drop_last(), x);
    }
}

/// The order of two byte strings.
pub fn order_bytes(a: &[u8], b: &[u8]) -> (r: Order)
    ensures
        r == bytes_order(a@, b@),
{
    let mut i: usize = 0;
    assert(a@.skip(0) =~= a@ && b@.skip(0) =~= b@);
    while i < a.len() && i < b.len() && a[i] == b[i]
        invariant
            i <= a@.len(),
            i <= b@.len(),
            bytes_order(a@, b@) == bytes_order(a@.skip(i as int), b@.skip(i as int)),
        decreases a.len() - i,
    {
        proof {
            assert(a@.skip(i as int).drop_first() =~= a@.skip(i + 1));
            assert(b@.skip(i as int).drop_first() =~= b@.skip(i + 1));
        }
        i = i + 1;
    }
    if i == a.len() {
        if i == b.len() {
            Order::Equal
        } else {
            Order::Less
        }
    } else if i == b.len() {
        Order::Greater
    } else if a[i] < b[i] {
        Order::Less
    } else {
        Order::Greater
    }
}

/// The order of two strings, by their UTF-8 bytes.
pub fn order_text(a: &str, b: &str) -> (r: Order)
    ensures
        r == text_order(a@, b@),
{
    order_bytes(a.as_bytes(), b.as_bytes())
}

fn order_opt_text(a: &Option<String>, b: &Option<String>) -> (r: Order)
    ensures
        r == opt_text_order(*a, *b),
{
    match (a, b) {
        (None, None) => Order::Equal,
        (None, Some(_)) => Order::Less,
        (Some(_), None) => Order::Greater,
        (Some(x), Some(y)) => order_text(x.as_str(), y.as_str()),
    }
}

/// The listing order of two skills: by server name, then by name.
pub fn order_skills(a: &SkillMetadata, b: &SkillMetadata) -> (r: Order)
    ensures
        r == skill_order(*a, *b),
{
    match order_opt_text(&a.server_name, &b.server_name) {
        Order::Equal => order_text(a.name.as_str(), b.name.as_str()),
        o => o,
    }
}

fn insertion_index(s: &Vec<SkillMetadata>, x: &SkillMetadata) -> (r: usize)
    ensures
        r == insertion_point(s@, *x),
{
    let mut pos = s.len();
    assert(s@.take(pos as int) =~= s@);
    while pos > 0 && order_skills(&s[pos - 1], x) == Order::Greater
        invariant
            pos <= s@.len(),
            insertion_point(s@, *x) == insertion_point(s@.take(pos as int), *x),
        decreases pos,
    {
        proof {
            assert(s@.take(pos as int).drop_last() =~= s@.take(pos - 1));
        }
        pos = pos - 1;
    }
    pos
}

/// Sorts skills by server name, then by name, keeping the order of skills
/// of equal key (a stable sort).
pub fn sort_by_server_and_name(skills: Vec<SkillMetadata>) -> (r: Vec<SkillMetadata>)
    ensures
        r@ == sorted_by_server_and_name(skills@),
{
    let ghost all = skills@;
    let mut out: Vec<SkillMetadata> = Vec::new();
    for x in it: skills
        invariant
            it.seq() == all,
            out@ == sorted_by_server_and_name(all.take(it.index() as int)),
    {
        proof {
            assert(all.take(it.index() + 1).drop_last() =~= all.take(it.index() as int));
            assert(all.take(it.index() + 1).last() == x);
            lemma_insertion_point_bounds(out@, x);
        }
        let pos = insertion_index(&out, &x);
        out.insert(pos, x);
    }
    proof {
        assert(all.take(all.len() as int) =~= all);
    }
    out
}

/// The UTF-8 bytes of a skill's server name, if it has one.
pub open spec fn server_bytes(s: SkillMetadata) -> Option<Seq<u8>> {
    match s.server_name {
        Some(n) => Some(encode_utf8(n@)),
        None => None,
    }
}

/// Two skills have the same key exactly when their server names and their
/// names have the same bytes.
pub proof fn lemma_skill_order_equal(a: SkillMetadata, b: SkillMetadata)
    ensures
        (skill_order(a, b) == Order::Equal) <==> (server_bytes(a) == server_bytes(b) && encode_utf8(
            a.name@,
        ) == encode_utf8(b.name@)),
{
    if let (Some(x), Some(y)) = (a.server_name, b.server_name) {
        lemma_bytes_order_equal(encode_utf8(x@), encode_utf8(y@));
    }
    lemma_bytes_order_equal(encode_utf8(a.name@), encode_utf8(b.name@));
}

/// The skills of `s` whose key is that of `k`, in order.
pub open spec fn with_key_of(s: Seq<SkillMetadata>, k: SkillMetadata) -> Seq<SkillMetadata>
    decreases s.len(),
{
    if s.len() == 0 {
        Seq::empty()
    } else {
        let prev = with_key_of(s.drop_last(), k);
        if skill_order(s.last(), k) == Order::Equal {
            prev.push(s.last())
        } else {
            prev
        }
    }
}

pub proof fn lemma_with_key_concat(a: Seq<SkillMetadata>, b: Seq<SkillMetadata>, k: SkillMetadata)
    ensures
        with_key_of(a + b, k) == with_key_of(a, k) + with_key_of(b, k),
    decreases b.len(),
{
    if b.len() == 0 {
        assert(a + b =~= a);
        assert(with_key_of(a, k) + with_key_of(b, k) =~= with_key_of(a, k));
    } else {
        lemma_with_key_concat(a, b.drop_last(), k);
        assert((a + b).drop_last() =~= a + b.drop_last());
        assert((a + b).last() == b.last());
        if skill_order(b.last(), k) == Order::Equal {
            assert(with_key_of(a, k) + with_key_of(b, k) =~= (with_key_of(a, k) + with_key_of(
                b.drop_last(),
                k,
            )).push(b.last()));
        }
    }
}

/// No skill of `s` has the key of `k`: nothing is kept.
pub proof fn lemma_with_key_none(s: Seq<SkillMetadata>, k: SkillMetadata)
    requires
        forall|i: int| 0 <= i < s.len() ==> skill_order(#[trigger] s[i], k) != Order::Equal,
    ensures
        with_key_of(s, k) == Seq::<SkillMetadata>::empty(),
    decreases s.len(),
{
    if s.len() > 0 {
        assert(s.last() == s[s.len() - 1]);
        lemma_with_key_none(s.drop_last(), k);
    }
}

/// What is kept is taken from `s` and has the key of `k`.
pub proof fn lemma_with_key_members(s: Seq<SkillMetadata>, k: SkillMetadata)
    ensures
        forall|i: int|
            0 <= i < with_key_of(s, k).len() ==> s.contains(#[trigger] with_key_of(s, k)[i])
                && skill_order(with_key_of(s, k)[i], k) == Order::Equal,
    decreases s.len(),
{
    if s.len() > 0 {
        lemma_with_key_members(s.drop_last(), k);
        let prev = with_key_of(s.drop_last(), k);
        assert forall|i: int| 0 <= i < with_key_of(s, k).len() implies s.contains(
            #[trigger] with_key_of(s, k)[i],
        ) && skill_order(with_key_of(s, k)[i], k) == Order::Equal by {
            if i < prev.len() {
                assert(with_key_of(s, k)[i] == prev[i]);
                let j = choose|j: int| 0 <= j < s.drop_last().len() && s.drop_last()[j] == prev[i];
                assert(s[j] == prev[i]);
            } else {
                assert(s[s.len() - 1] == s.last());
            }
        }
    }
}

proof fn lemma_same_key_self(x: SkillMetadata)
    ensures
        skill_order(x, x) == Order::Equal,
{
    lemma_skill_order_equal(x, x);
}

/// The listing is stable: the skills of any one key come out in the order
/// they came in.
pub proof fn law_listing_is_stable(s: Seq<SkillMetadata>, k: SkillMetadata)
    ensures
        with_key_of(sorted_by_server_and_name(s), k) == with_key_of(s, k),
    decreases s.len(),
{
    if s.len() > 0 {
        let t = sorted_by_server_and_name(s.drop_last());
        let x = s.last();
        law_listing_is_stable(s.drop_last(), k);
        law_listing_is_sorted(s.drop_last());
        lemma_insertion_point_splits(t, x);
        let p = insertion_point(t, x);
        assert(t.insert(p, x) =~= t.take(p) + seq![x] + t.skip(p));
        assert(t =~= t.take(p) + t.skip(p));
        lemma_with_key_concat(t.take(p) + seq![x], t.skip(p), k);
        lemma_with_key_concat(t.take(p), seq![x], k);
        lemma_with_key_concat(t.take(p), t.skip(p), k);
        assert(seq![x].drop_last() =~= Seq::<SkillMetadata>::empty());
        assert(seq![x].last() == x);
        assert(seq![x].len() == 1);
        assert(with_key_of(seq![x].drop_last(), k) =~= Seq::<SkillMetadata>::empty());
        let ins = t.insert(p, x);
        let a = t.take(p);
        let b = t.skip(p);
        assert(with_key_of(ins, k) == with_key_of(a + seq![x], k) + with_key_of(b, k));
        assert(with_key_of(a + seq![x], k) == with_key_of(a, k) + with_key_of(seq![x], k));
        assert(with_key_of(t, k) == with_key_of(a, k) + with_key_of(b, k));
        assert(s.drop_last().push(x) =~= s);
        if skill_order(x, k) == Order::Equal {
            assert(with_key_of(seq![x], k) =~= seq![x]);
            assert forall|i: int| 0 <= i < t.skip(p).len() implies skill_order(
                #[trigger] t.skip(p)[i],
                k,
            ) != Order::Equal by {
                let y = t.skip(p)[i];
                assert(y == t[p + i]);
                assert(!listed_before(y, x));
                lemma_skill_order_equal(y, k);
                lemma_skill_order_equal(x, k);
                lemma_skill_order_equal(y, x);
            }
            lemma_with_key_none(t.skip(p), k);
            assert(with_key_of(ins, k) =~= with_key_of(t, k).push(x));
        } else {
            assert(with_key_of(seq![x], k) =~= Seq::<SkillMetadata>::empty());
            assert(with_key_of(ins, k) =~= with_key_of(t, k));
        }
    }
}

/// A sorted listing is fixed by what it holds of each key: two sorted
/// sequences that agree on every key agree everywhere.
pub proof fn lemma_sorted_unique(u: Seq<SkillMetadata>, v: Seq<SkillMetadata>)
    requires
        is_listing_sorted(u),
        is_listing_sorted(v),
        forall|k: SkillMetadata| #[trigger] with_key_of(u, k) == with_key_of(v, k),
    ensures
        u == v,
    decreases u.len(),
{
    if u.len() == 0 {
        if v.len() > 0 {
            lemma_same_key_self(v.last());
            assert(with_key_of(u, v.last()) == with_key_of(v, v.last()));
        }
        assert(u =~= v);
    } else {
        let x = u.last();
        lemma_same_key_self(x);
        assert(with_key_of(u, x) == with_key_of(v, x));
        if v.len() == 0 {
            assert(with_key_of(u, x).len() > 0);
        }
        let y = v.last();
        lemma_same_key_self(y);
        assert(with_key_of(u, y) == with_key_of(v, y));
        // x is in v, so it may come before y; y is in u, so it may come before x.
        lemma_with_key_members(v, x);
        let wx = with_key_of(v, x);
        assert(wx[wx.len() - 1] == x);
        let i = choose|i: int| 0 <= i < v.len() && v[i] == x;
        if i < v.len() - 1 {
            assert(listed_before(v[i], v[v.len() - 1]));
        } else {
            lemma_same_key_self(x);
        }
        lemma_with_key_members(u, y);
        let wy = with_key_of(u, y);
        assert(wy[wy.len() - 1] == y);
        let j = choose|j: int| 0 <= j < u.len() && u[j] == y;
        if j < u.len() - 1 {
            assert(listed_before(u[j], u[u.len() - 1]));
        } else {
            lemma_same_key_self(y);
        }
        lemma_skill_order_flip(x, y);
        assert(skill_order(x, y) == Order::Equal);
        lemma_skill_order_equal(x, y);
        lemma_skill_order_equal(y, x);
        assert(x == y);
        let u2 = u.drop_last();
        let v2 = v.drop_last();
        assert forall|k: SkillMetadata| #[trigger] with_key_of(u2, k) == with_key_of(v2, k) by {
            assert(with_key_of(u, k) == with_key_of(v, k));
            lemma_skill_order_equal(x, k);
            if skill_order(x, k) == Order::Equal {
                assert(with_key_of(u2, k) =~= with_key_of(u, k).drop_last());
                assert(with_key_of(v2, k) =~= with_key_of(v, k).drop_last());
            }
        }
        assert(is_listing_sorted(u2)) by {
            assert forall|a: int, b: int| 0 <= a < b < u2.len() implies listed_before(
                #[trigger] u2[a],
                #[trigger] u2[b],
            ) by {
                assert(u2[a] == u[a] && u2[b] == u[b]);
            }
        }
        assert(is_listing_sorted(v2)) by {
            assert forall|a: int, b: int| 0 <= a < b < v2.len() implies listed_before(
                #[trigger] v2[a],
                #[trigger] v2[b],
            ) by {
                assert(v2[a] == v[a] && v2[b] == v[b]);
            }
        }
        lemma_sorted_unique(u2, v2);
        assert(u =~= u2.push(x));
        assert(v =~= v2.push(y));
    }
}

/// Byte strings are ordered as in a dictionary: `a` comes first exactly when
/// it is a proper prefix of `b`, or at the first position where they differ
/// its byte is smaller.
pub proof fn law_bytes_order_is_lexicographic(a: Seq<u8>, b: Seq<u8>)
    ensures
        (bytes_order(a, b) == Order::Less) <==> ((a.len() < b.len() && b.take(a.len() as int) == a)
            || exists|i: int|
            0 <= i < a.len() && i < b.len() && a.take(i) == b.take(i) && #[trigger] a[i] < b[i]),
    decreases a.len(),
{
    if a.len() > 0 && b.len() > 0 {
        law_bytes_order_is_lexicographic(a.drop_first(), b.drop_first());
        let a1 = a.drop_first();
        let b1 = b.drop_first();
        if a[0] == b[0] {
            if a1.len() < b1.len() && b1.take(a1.len() as int) == a1 {
                assert(b.take(a.len() as int) =~= seq![b[0]] + b1.take(a1.len() as int));
                assert(a =~= seq![a[0]] + a1);
            }
            if exists|i: int| 0 <= i < a1.len() && i < b1.len() && a1.take(i) == b1.take(i) && #[trigger] a1[i] < b1[i] {
                let i = choose|i: int| 0 <= i < a1.len() && i < b1.len() && a1.take(i) == b1.take(i) && #[trigger] a1[i] < b1[i];
                assert(a.take(i + 1) =~= seq![a[0]] + a1.take(i));
                assert(b.take(i + 1) =~= seq![b[0]] + b1.take(i));
                assert(a[i + 1] == a1[i] && b[i + 1] == b1[i]);
            }
            if a.len() < b.len() && b.take(a.len() as int) == a {
                assert(b1.take(a1.len() as int) =~= b.take(a.len() as int).drop_first());
                assert(a1 =~= a.drop_first());
            }
            if exists|i: int| 0 <= i < a.len() && i < b.len() && a.take(i) == b.take(i) && #[trigger] a[i] < b[i] {
                let i = choose|i: int| 0 <= i < a.len() && i < b.len() && a.take(i) == b.take(i) && #[trigger] a[i] < b[i];
                assert(i > 0);
                assert(a1.take(i - 1) =~= a.take(i).drop_first());
                assert(b1.take(i - 1) =~= b.take(i).drop_first());
                assert(a1[i - 1] == a[i] && b1[i - 1] == b[i]);
            }
        } else if a[0] < b[0] {
            assert(a.take(0) =~= b.take(0));
        } else {
            if a.len() < b.len() && b.take(a.len() as int) == a {
                assert(b.take(a.len() as int)[0] == b[0]);
            }
            if exists|i: int| 0 <= i < a.len() && i < b.len() && a.take(i) == b.take(i) && #[trigger] a[i] < b[i] {
                let i = choose|i: int| 0 <= i < a.len() && i < b.len() && a.take(i) == b.take(i) && #[trigger] a[i] < b[i];
                if i > 0 {
                    assert(a.take(i)[0] == a[0] && b.take(i)[0] == b[0]);
                }
            }
        }
    } else if a.len() == 0 && b.len() > 0 {
        assert(b.take(0) =~= a);
    } else if a.len() > 0 {
        assert(b.len() == 0);
    }
}

/// Skills are listed by server first: skills without a server before all
/// others, a server whose name's bytes come first before the other; within
/// one server, by the bytes of their names.
pub proof fn law_listing_order_by_server_then_name(a: SkillMetadata, b: SkillMetadata)
    ensures
        a.server_name is None && b.server_name is Some ==> skill_order(a, b) == Order::Less,
        (a.server_name matches Some(x) && b.server_name matches Some(y) && bytes_order(
            encode_utf8(x@),
            encode_utf8(y@),
        ) == Order::Less) ==> skill_order(a, b) == Order::Less,
        server_bytes(a) == server_bytes(b) ==> skill_order(a, b) == bytes_order(
            encode_utf8(a.name@),
            encode_utf8(b.name@),
        ),
{
    if let (Some(x), Some(y)) = (a.server_name, b.server_name) {
        lemma_bytes_order_equal(encode_utf8(x@), encode_utf8(y@));
    }
}

} // verus!
