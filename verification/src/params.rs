//! Parameter sets: a mapping from parameter name to value with unique keys,
//! canonical (sorted, percent-encoded) serialization, and parsing of the
//! `key=value&...` wire format.

use vstd::prelude::*;
use vstd::multiset::Multiset;
use crate::encoding::encode;
use crate::encoding::push_char;
use crate::encoding::encode_str_spec;
use crate::encoding::lex_leq;
use crate::encoding::lex_leq_fn;
use crate::encoding::str_lex_leq;
use crate::encoding::lemma_lex_total_ordering;
use crate::encoding::lemma_lex_connected;
use crate::encoding::lemma_lex_trans;
use crate::OauthError;

verus! {

/// One logical pair: a key and a value, as character sequences.
pub type ParamPair = (Seq<char>, Seq<char>);

/// A set of request parameters. Keys are unique; insertion order is
/// irrelevant, since canonical order is re-derived at serialization time.
pub struct ParamList {
    pairs: Vec<(String, String)>,
}

/// Inserting into a parameter sequence: replaces the value of the first
/// pair with the same key, or appends a new pair at the end.
pub open spec fn spec_insert(ps: Seq<ParamPair>, k: Seq<char>, v: Seq<char>) -> Seq<ParamPair>
    decreases ps.len(),
{
    if ps.len() == 0 {
        seq![(k, v)]
    } else if ps[0].0 == k {
        seq![(k, v)] + ps.drop_first()
    } else {
        seq![ps[0]] + spec_insert(ps.drop_first(), k, v)
    }
}

/// The mapping that a parameter sequence denotes; a later pair with the
/// same key wins.
pub open spec fn pairs_to_map(ps: Seq<ParamPair>) -> Map<Seq<char>, Seq<char>>
    decreases ps.len(),
{
    if ps.len() == 0 {
        Map::empty()
    } else {
        pairs_to_map(ps.drop_last()).insert(ps.last().0, ps.last().1)
    }
}

/// Keys are pairwise distinct.
pub open spec fn unique_keys(ps: Seq<ParamPair>) -> bool {
    forall|i: int, j: int| 0 <= i < j < ps.len() ==> ps[i].0 != ps[j].0
}

impl View for ParamList {
    type V = Seq<ParamPair>;

    closed spec fn view(&self) -> Seq<ParamPair> {
        Seq::new(self.pairs@.len(), |i: int| (self.pairs@[i].0@, self.pairs@[i].1@))
    }
}

impl ParamList {
    /// The parameter set holds each key once.
    pub open spec fn wf(self) -> bool {
        unique_keys(self@)
    }

    /// The mapping this parameter set denotes.
    pub open spec fn as_map(self) -> Map<Seq<char>, Seq<char>> {
        pairs_to_map(self@)
    }

    /// An empty parameter set.
    pub fn new() -> (r: ParamList)
        ensures
            r@ == Seq::<ParamPair>::empty(),
            r.wf(),
    {
        let r = ParamList { pairs: Vec::new() };
        proof {
            assert(r@ =~= Seq::<ParamPair>::empty());
        }
        r
    }

    /// How many pairs the set holds.
    pub fn len(&self) -> (n: usize)
        ensures
            n == self@.len(),
    {
        self.pairs.len()
    }

    /// The pair at an index, for walking the set.
    pub fn pair_at(&self, i: usize) -> (r: (&String, &String))
        requires
            i < self@.len(),
        ensures
            r.0@ == self@[i as int].0,
            r.1@ == self@[i as int].1,
    {
        (&self.pairs[i].0, &self.pairs[i].1)
    }

    /// Looks a key up, as the mapping the set denotes does.
    pub fn lookup<'a>(&'a self, key: &str) -> (r: Option<&'a String>)
        requires
            self.wf(),
        ensures
            match r {
                Some(v) => self.as_map().contains_key(key@) && v@ == self.as_map()[key@],
                None => !self.as_map().contains_key(key@),
            },
    {
        proof {
            lemma_pairs_to_map_membership(self@);
            assert(forall|j: int|
                0 <= j < self@.len() ==> (#[trigger] pairs_to_map(self@).contains_key(self@[j].0)
                    && pairs_to_map(self@)[self@[j].0] == self@[j].1));
        }
        let k = String::from_str(key);
        let n = self.pairs.len();
        let mut i: usize = 0;
        while i < n
            invariant
                i <= n,
                n == self@.len(),
                self.wf(),
                k@ == key@,
                forall|j: int| 0 <= j < i ==> self@[j].0 != key@,
                forall|j: int|
                    0 <= j < self@.len() ==> (#[trigger] pairs_to_map(self@).contains_key(
                        self@[j].0,
                    ) && pairs_to_map(self@)[self@[j].0] == self@[j].1),
                forall|kk: Seq<char>|
                    self.as_map().contains_key(kk) ==> exists|j: int|
                        0 <= j < self@.len() && self@[j].0 == kk,
            decreases n - i,
        {
            if self.pairs[i].0 == k {
                assert(self@[i as int].0 == key@);
                return Some(&self.pairs[i].1);
            }
            i += 1;
        }
        None
    }
}

/// Membership in the denoted mapping: a key maps to a value exactly when a
/// pair holds it, and under unique keys each pair's value is the mapped one.
pub proof fn lemma_pairs_to_map_membership(ps: Seq<ParamPair>)
    requires
        unique_keys(ps),
    ensures
        forall|k: Seq<char>|
            pairs_to_map(ps).contains_key(k) ==> exists|j: int| 0 <= j < ps.len() && ps[j].0 == k,
        forall|j: int|
            0 <= j < ps.len() ==> (#[trigger] pairs_to_map(ps).contains_key(ps[j].0)
                && pairs_to_map(ps)[ps[j].0] == ps[j].1),
    decreases ps.len(),
{
    if ps.len() > 0 {
        let pre = ps.drop_last();
        assert(unique_keys(pre)) by {
            assert(forall|i: int, j: int|
                0 <= i < j < pre.len() ==> pre[i].0 == ps[i].0 && pre[j].0 == ps[j].0);
        }
        lemma_pairs_to_map_membership(pre);
        let m = pairs_to_map(ps);
        let mpre = pairs_to_map(pre);
        assert(m == mpre.insert(ps.last().0, ps.last().1));
        assert forall|j: int|
            0 <= j < ps.len() implies (#[trigger] pairs_to_map(ps).contains_key(ps[j].0)
            && pairs_to_map(ps)[ps[j].0] == ps[j].1) by {
            if j < ps.len() - 1 {
                assert(pre[j] == ps[j]);
                assert(mpre.contains_key(pre[j].0) && mpre[pre[j].0] == pre[j].1);
                assert(ps[j].0 != ps[ps.len() - 1].0);
            } else {
                assert(ps[j] == ps.last());
            }
        }
        assert forall|k: Seq<char>| pairs_to_map(ps).contains_key(k) implies exists|j: int|
            0 <= j < ps.len() && ps[j].0 == k by {
            if k == ps.last().0 {
                assert(ps[ps.len() - 1].0 == k);
            } else {
                assert(mpre.contains_key(k));
                let j = choose|j: int| 0 <= j < pre.len() && pre[j].0 == k;
                assert(pre[j] == ps[j]);
                assert(ps[j].0 == k);
            }
        }
    }
}

/// What `spec_insert` does, element by element: it keeps unique keys, and
/// its denoted mapping is the old one with the key bound to the new value.
pub proof fn lemma_spec_insert_props(ps: Seq<ParamPair>, k: Seq<char>, v: Seq<char>)
    requires
        unique_keys(ps),
    ensures
        unique_keys(spec_insert(ps, k, v)),
        pairs_to_map(spec_insert(ps, k, v)) == pairs_to_map(ps).insert(k, v),
        forall|i: int|
            0 <= i < ps.len() && ps[i].0 == k ==> spec_insert(ps, k, v) == #[trigger] ps.update(
                i,
                (k, v),
            ),
        (forall|i: int| 0 <= i < ps.len() ==> ps[i].0 != k) ==> spec_insert(ps, k, v) == ps.push(
            (k, v),
        ),
    decreases ps.len(),
{
    let r = spec_insert(ps, k, v);
    if ps.len() == 0 {
        assert(r =~= ps.push((k, v)));
        assert(r.drop_last() =~= ps);
        assert(r.last() == (k, v));
        assert(pairs_to_map(r) == pairs_to_map(ps).insert(k, v));
    } else if ps[0].0 == k {
        assert(r =~= ps.update(0, (k, v)));
        lemma_update_map(ps, 0, k, v);
        assert forall|i: int| 0 <= i < ps.len() && ps[i].0 == k implies r == ps.update(
            i,
            (k, v),
        ) by {
            if i != 0 {
                assert(ps[0].0 != ps[i].0);
            }
        }
    } else {
        let rest = ps.drop_first();
        assert(unique_keys(rest)) by {
            assert(forall|i: int, j: int|
                0 <= i < j < rest.len() ==> rest[i].0 == ps[i + 1].0 && rest[j].0 == ps[j + 1].0);
        }
        lemma_spec_insert_props(rest, k, v);
        assert forall|w: int| 0 <= w < ps.len() && ps[w].0 == k implies r == ps.update(
            w,
            (k, v),
        ) by {
            assert(w > 0);
            assert(rest[w - 1] == ps[w]);
            assert(spec_insert(rest, k, v) == rest.update(w - 1, (k, v)));
            assert(r =~= ps.update(w, (k, v)));
        }
        if exists|w: int| 0 <= w < ps.len() && ps[w].0 == k {
            let w = choose|w: int| 0 <= w < ps.len() && ps[w].0 == k;
            assert(r == ps.update(w, (k, v)));
            lemma_update_map(ps, w, k, v);
        } else {
            assert(forall|i: int| 0 <= i < ps.len() ==> ps[i].0 != k);
            assert forall|i: int| 0 <= i < rest.len() implies rest[i].0 != k by {
                assert(rest[i] == ps[i + 1]);
            }
            assert(spec_insert(rest, k, v) == rest.push((k, v)));
            assert(r =~= ps.push((k, v)));
            assert(unique_keys(r)) by {
                assert(forall|i: int| 0 <= i < ps.len() ==> r[i] == ps[i]);
                assert(r[ps.len() as int] == (k, v));
            }
            assert(r.drop_last() =~= ps);
            assert(r.last() == (k, v));
            assert(pairs_to_map(r) == pairs_to_map(ps).insert(k, v));
        }
    }
}

/// Updating the pair at the unique index of a key rebinds just that key.
proof fn lemma_update_map(ps: Seq<ParamPair>, w: int, k: Seq<char>, v: Seq<char>)
    requires
        unique_keys(ps),
        0 <= w < ps.len(),
        ps[w].0 == k,
    ensures
        unique_keys(ps.update(w, (k, v))),
        pairs_to_map(ps.update(w, (k, v))) == pairs_to_map(ps).insert(k, v),
    decreases ps.len(),
{
    let r = ps.update(w, (k, v));
    assert(unique_keys(r)) by {
        assert(forall|i: int| 0 <= i < ps.len() ==> r[i].0 == ps[i].0);
    }
    if w == ps.len() - 1 {
        assert(r.drop_last() =~= ps.drop_last());
        assert(r.last() == (k, v));
        assert(pairs_to_map(r) =~= pairs_to_map(ps).insert(k, v));
    } else {
        let pre = ps.drop_last();
        assert(unique_keys(pre)) by {
            assert(forall|i: int, j: int|
                0 <= i < j < pre.len() ==> pre[i].0 == ps[i].0 && pre[j].0 == ps[j].0);
        }
        lemma_update_map(pre, w, k, v);
        assert(r.drop_last() =~= pre.update(w, (k, v)));
        assert(r.last() == ps.last());
        assert(pairs_to_map(r) == pairs_to_map(pre).insert(k, v).insert(
            ps.last().0,
            ps.last().1,
        ));
        assert(ps.last().0 != k);
        assert(pairs_to_map(pre).insert(k, v).insert(ps.last().0, ps.last().1) =~= pairs_to_map(
            pre,
        ).insert(ps.last().0, ps.last().1).insert(k, v));
    }
}

/// `spec_insert` at an index that already holds the key is an update in
/// place.
pub proof fn lemma_spec_insert_at(ps: Seq<ParamPair>, k: Seq<char>, v: Seq<char>, i: int)
    requires
        unique_keys(ps),
        0 <= i < ps.len(),
        ps[i].0 == k,
    ensures
        spec_insert(ps, k, v) == ps.update(i, (k, v)),
{
    lemma_spec_insert_props(ps, k, v);
    assert(ps.update(i, (k, v)) == ps.update(i, (k, v)));
}

/// Inserts or overwrites a key/value pair. The value is stored verbatim;
/// encoding happens only at serialization time.
pub fn insert_param(param: &mut ParamList, key: String, value: String)
    requires
        old(param).wf(),
    ensures
        final(param)@ == spec_insert(old(param)@, key@, value@),
        final(param).wf(),
        final(param).as_map() == old(param).as_map().insert(key@, value@),
{
    proof {
        lemma_spec_insert_props(old(param)@, key@, value@);
    }
    let n = param.pairs.len();
    let mut i: usize = 0;
    while i < n
        invariant
            i <= n,
            n == param@.len(),
            param == old(param),
            old(param).wf(),
            forall|j: int| 0 <= j < i ==> param@[j].0 != key@,
        decreases n - i,
    {
        if param.pairs[i].0 == key {
            assert(param@[i as int].0 == key@);
            let _old = param.pairs.remove(i);
            param.pairs.insert(i, (key, value));
            proof {
                assert(param@ =~= old(param)@.update(i as int, (key@, value@)));
                lemma_spec_insert_at(old(param)@, key@, value@, i as int);
                lemma_spec_insert_props(old(param)@, key@, value@);
            }
            return ;
        }
        i += 1;
    }
    param.pairs.push((key, value));
    proof {
        assert(param@ =~= old(param)@.push((key@, value@)));
    }
}

} // verus!

verus! {

/// Joining parts with a separator.
pub open spec fn join_with_spec(parts: Seq<Seq<char>>, sep: Seq<char>) -> Seq<char>
    decreases parts.len(),
{
    if parts.len() == 0 {
        Seq::empty()
    } else if parts.len() == 1 {
        parts[0]
    } else {
        parts[0] + sep + join_with_spec(parts.drop_first(), sep)
    }
}

/// Appending one part extends the joined string at its end.
pub proof fn lemma_join_with_push(parts: Seq<Seq<char>>, sep: Seq<char>, x: Seq<char>)
    ensures
        join_with_spec(parts.push(x), sep) == if parts.len() == 0 {
            x
        } else {
            join_with_spec(parts, sep) + sep + x
        },
    decreases parts.len(),
{
    let p = parts.push(x);
    if parts.len() == 0 {
        assert(p[0] == x);
        assert(join_with_spec(p, sep) == x);
    } else if parts.len() == 1 {
        assert(p.drop_first() =~= seq![x]);
        assert(join_with_spec(p.drop_first(), sep) == x);
        assert(p[0] == parts[0]);
    } else {
        assert(p.drop_first() =~= parts.drop_first().push(x));
        lemma_join_with_push(parts.drop_first(), sep, x);
        assert(p[0] == parts[0]);
        assert(parts[0] + sep + (join_with_spec(parts.drop_first(), sep) + sep + x) =~= (parts[0]
            + sep + join_with_spec(parts.drop_first(), sep)) + sep + x);
    }
}

/// Joins the parts with a separator string.
pub(crate) fn join_with(parts: &Vec<String>, sep: &str) -> (r: String)
    ensures
        r@ == join_with_spec(parts.deep_view(), sep@),
{
    let mut r = String::new();
    let n = parts.len();
    let mut i: usize = 0;
    while i < n
        invariant
            i <= n,
            n == parts@.len(),
            r@ == join_with_spec(parts.deep_view().take(i as int), sep@),
        decreases n - i,
    {
        if i > 0 {
            r.append(sep);
        }
        r.append(parts[i].as_str());
        proof {
            let dv = parts.deep_view();
            assert(dv[i as int] == parts@[i as int]@);
            lemma_join_with_push(dv.take(i as int), sep@, dv[i as int]);
            assert(dv.take(i + 1) =~= dv.take(i as int).push(dv[i as int]));
        }
        i += 1;
    }
    proof {
        assert(parts.deep_view().take(n as int) =~= parts.deep_view());
    }
    r
}

/// Inserting anywhere adds one occurrence to the bag of elements.
proof fn lemma_insert_multiset(s: Seq<Seq<char>>, p: int, x: Seq<char>)
    requires
        0 <= p <= s.len(),
    ensures
        s.insert(p, x).to_multiset() == s.to_multiset().insert(x),
{
    broadcast use vstd::seq_lib::group_to_multiset_ensures;
    broadcast use vstd::multiset::group_multiset_axioms;

    let r = s.insert(p, x);
    assert(r =~= s.take(p) + (seq![x] + s.skip(p)));
    vstd::seq_lib::lemma_multiset_commutative(s.take(p), seq![x] + s.skip(p));
    vstd::seq_lib::lemma_multiset_commutative(seq![x], s.skip(p));
    assert(seq![x] =~= Seq::<Seq<char>>::empty().push(x));
    assert(Seq::<Seq<char>>::empty().to_multiset() =~= Multiset::<Seq<char>>::empty());
    assert(s.take(p) + s.skip(p) =~= s);
    vstd::seq_lib::lemma_multiset_commutative(s.take(p), s.skip(p));
    assert(r.to_multiset() =~= s.to_multiset().insert(x));
}

/// The position before which a new string sorts in an already sorted list.
fn find_insert_pos(v: &Vec<String>, x: &String) -> (p: usize)
    ensures
        p <= v@.len(),
        forall|j: int| 0 <= j < p ==> lex_leq(v.deep_view()[j], x@),
        p < v@.len() ==> !lex_leq(v.deep_view()[p as int], x@),
{
    let n = v.len();
    let mut p: usize = 0;
    while p < n
        invariant
            p <= n,
            n == v@.len(),
            forall|j: int| 0 <= j < p ==> lex_leq(v.deep_view()[j], x@),
        decreases n - p,
    {
        if !str_lex_leq(v[p].as_str(), x.as_str()) {
            assert(v.deep_view()[p as int] == v@[p as int]@);
            return p;
        }
        assert(v.deep_view()[p as int] == v@[p as int]@);
        p += 1;
    }
    p
}

/// Inserts a string into a sorted list, keeping it sorted.
fn sorted_insert(v: &mut Vec<String>, x: String)
    requires
        vstd::relations::sorted_by(old(v).deep_view(), lex_leq_fn()),
    ensures
        vstd::relations::sorted_by(final(v).deep_view(), lex_leq_fn()),
        final(v).deep_view().to_multiset() == old(v).deep_view().to_multiset().insert(x@),
{
    let p = find_insert_pos(v, &x);
    let ghost olddv = v.deep_view();
    v.insert(p, x);
    proof {
        assert(v.deep_view() =~= olddv.insert(p as int, x@));
        lemma_insert_multiset(olddv, p as int, x@);
        let dv = v.deep_view();
        let leq = lex_leq_fn();
        assert forall|i: int, j: int| 0 <= i < j < dv.len() implies #[trigger] leq(
            dv[i],
            dv[j],
        ) by {
            if j < p {
                assert(leq(olddv[i], olddv[j]));
            } else if i < p && j == p {
                assert(lex_leq(olddv[i], x@));
            } else if i < p && j > p {
                assert(leq(olddv[i], olddv[j - 1]));
            } else if i == p {
                assert(p < olddv.len());
                assert(!lex_leq(olddv[p as int], x@));
                lemma_lex_connected(olddv[p as int], x@);
                assert(lex_leq(x@, olddv[p as int]));
                if j - 1 > p {
                    assert(leq(olddv[p as int], olddv[j - 1]));
                    lemma_lex_trans(x@, olddv[p as int], olddv[j - 1]);
                }
            } else {
                assert(leq(olddv[i - 1], olddv[j - 1]));
            }
        }
    }
}

/// Sorts strings into the byte-lexicographic order.
pub(crate) fn sort_strings(v: &Vec<String>) -> (r: Vec<String>)
    ensures
        vstd::relations::sorted_by(r.deep_view(), lex_leq_fn()),
        r.deep_view().to_multiset() == v.deep_view().to_multiset(),
{
    broadcast use vstd::seq_lib::group_to_multiset_ensures;

    let mut out: Vec<String> = Vec::new();
    let n = v.len();
    let mut i: usize = 0;
    proof {
        assert(out.deep_view() =~= Seq::<Seq<char>>::empty());
        assert(v.deep_view().take(0) =~= Seq::<Seq<char>>::empty());
    }
    while i < n
        invariant
            i <= n,
            n == v@.len(),
            vstd::relations::sorted_by(out.deep_view(), lex_leq_fn()),
            out.deep_view().to_multiset() == v.deep_view().take(i as int).to_multiset(),
        decreases n - i,
    {
        broadcast use vstd::seq_lib::group_to_multiset_ensures;

        let s = v[i].clone();
        assert(s@ == v.deep_view()[i as int]);
        sorted_insert(&mut out, s);
        proof {
            let dv = v.deep_view();
            assert(dv.take(i + 1) =~= dv.take(i as int).push(dv[i as int]));
        }
        i += 1;
    }
    proof {
        assert(v.deep_view().take(n as int) =~= v.deep_view());
    }
    out
}

/// A sorted list with the same elements as `s` is `s`'s canonical sort.
pub proof fn lemma_canonical_sort(s: Seq<Seq<char>>, t: Seq<Seq<char>>)
    requires
        vstd::relations::sorted_by(t, lex_leq_fn()),
        t.to_multiset() == s.to_multiset(),
    ensures
        t == s.sort_by(lex_leq_fn()),
{
    lemma_lex_total_ordering();
    s.lemma_sort_by_ensures(lex_leq_fn());
    vstd::seq_lib::lemma_sorted_unique(t, s.sort_by(lex_leq_fn()), lex_leq_fn());
}

/// How one pair is rendered in the canonical query string: both the key and
/// the value percent-encoded, joined by `=`.
pub open spec fn query_pair_fn() -> spec_fn(ParamPair) -> Seq<char> {
    |p: ParamPair| encode_str_spec(p.0) + "="@ + encode_str_spec(p.1)
}

/// The canonical parameter string: every pair percent-encoded as
/// `key=value`, the rendered pairs sorted byte-lexicographically and joined
/// with `&`.
pub open spec fn join_query_spec(ps: Seq<ParamPair>) -> Seq<char> {
    join_with_spec(ps.map_values(query_pair_fn()).sort_by(lex_leq_fn()), "&"@)
}

/// Serializes the parameter set in canonical form, for the signature base
/// string: percent-encoded `key=value` pairs, sorted, joined with `&`.
pub fn join_query(param: &ParamList) -> (r: String)
    ensures
        r@ == join_query_spec(param@),
{
    let n = param.len();
    let mut rendered: Vec<String> = Vec::new();
    let mut i: usize = 0;
    proof {
        assert(rendered.deep_view() =~= param@.take(0).map_values(query_pair_fn()));
    }
    while i < n
        invariant
            i <= n,
            n == param@.len(),
            rendered.deep_view() == param@.take(i as int).map_values(query_pair_fn()),
        decreases n - i,
    {
        let (k, v) = param.pair_at(i);
        let mut s = encode(k.as_str());
        s.append("=");
        let ev = encode(v.as_str());
        s.append(ev.as_str());
        rendered.push(s);
        proof {
            assert(s@ == query_pair_fn()(param@[i as int]));
            assert(rendered.deep_view() =~= param@.take(i as int).map_values(
                query_pair_fn(),
            ).push(s@));
            assert(param@.take(i + 1) =~= param@.take(i as int).push(param@[i as int]));
            assert(param@.take(i + 1).map_values(query_pair_fn()) =~= param@.take(
                i as int,
            ).map_values(query_pair_fn()).push(s@));
        }
        i += 1;
    }
    let sorted = sort_strings(&rendered);
    let r = join_with(&sorted, "&");
    proof {
        assert(param@.take(n as int) =~= param@);
        lemma_canonical_sort(param@.map_values(query_pair_fn()), sorted.deep_view());
    }
    r
}

/// Renaming the elements of a bag renames its contents: sequences with the
/// same elements keep having the same elements after mapping.
pub proof fn lemma_map_values_multiset<A, B>(s1: Seq<A>, s2: Seq<A>, f: spec_fn(A) -> B)
    requires
        s1.to_multiset() == s2.to_multiset(),
    ensures
        s1.map_values(f).to_multiset() == s2.map_values(f).to_multiset(),
    decreases s1.len(),
{
    broadcast use vstd::seq_lib::group_to_multiset_ensures;
    broadcast use vstd::multiset::group_multiset_axioms;

    if s1.len() == 0 {
        assert(s1.to_multiset().len() == 0);
        assert(s2.len() == 0);
        assert(s1.map_values(f) =~= s2.map_values(f));
    } else {
        let x = s1.last();
        let s1p = s1.drop_last();
        assert(s1.contains(x)) by {
            assert(s1[s1.len() - 1] == x);
        }
        assert(s1.to_multiset().count(x) > 0);
        assert(s2.to_multiset().count(x) > 0);
        assert(s2.contains(x));
        let j = choose|j: int| 0 <= j < s2.len() && s2[j] == x;
        let s2p = s2.remove(j);
        assert(s2p.to_multiset() == s2.to_multiset().remove(x));
        assert(s1p.to_multiset() == s1.to_multiset().remove(x)) by {
            assert(s1.remove(s1.len() - 1) =~= s1p);
        }
        lemma_map_values_multiset(s1p, s2p, f);
        assert(s1.map_values(f) =~= s1p.map_values(f).push(f(x)));
        assert(s1.map_values(f).to_multiset() == s1p.map_values(f).to_multiset().insert(f(x)));
        assert(s2p.map_values(f) =~= s2.map_values(f).remove(j));
        assert(s2.map_values(f)[j] == f(x));
        assert(s2.map_values(f).remove(j).to_multiset() == s2.map_values(f).to_multiset().remove(
            f(x),
        ));
        assert(s2.map_values(f).contains(f(x))) by {
            assert(s2.map_values(f)[j] == f(x));
        }
        assert(s2.map_values(f).to_multiset().count(f(x)) > 0);
        assert(s2.map_values(f).to_multiset() =~= s2.map_values(f).to_multiset().remove(
            f(x),
        ).insert(f(x)));
        assert(s1.map_values(f).to_multiset() == s2.map_values(f).to_multiset());
    }
}

/// LAW: the canonical parameter string is determined by which pairs the set
/// holds, never by the order they were inserted in: parameter sequences that
/// hold the same pairs serialize to byte-identical strings.
pub proof fn lemma_join_query_order_independent(ps1: Seq<ParamPair>, ps2: Seq<ParamPair>)
    requires
        ps1.to_multiset() == ps2.to_multiset(),
    ensures
        join_query_spec(ps1) == join_query_spec(ps2),
{
    lemma_map_values_multiset(ps1, ps2, query_pair_fn());
    lemma_lex_total_ordering();
    let m1 = ps1.map_values(query_pair_fn());
    let m2 = ps2.map_values(query_pair_fn());
    m1.lemma_sort_by_ensures(lex_leq_fn());
    m2.lemma_sort_by_ensures(lex_leq_fn());
    vstd::seq_lib::lemma_sorted_unique(
        m1.sort_by(lex_leq_fn()),
        m2.sort_by(lex_leq_fn()),
        lex_leq_fn(),
    );
}

} // verus!

verus! {

/// Splitting at every occurrence of a separator character. A string with no
/// separator is one segment; each separator ends the segment before it.
pub open spec fn split_on(q: Seq<char>, sep: char) -> Seq<Seq<char>>
    decreases q.len(),
{
    if q.len() == 0 {
        seq![Seq::<char>::empty()]
    } else if q[0] == sep {
        seq![Seq::<char>::empty()] + split_on(q.drop_first(), sep)
    } else {
        let rest = split_on(q.drop_first(), sep);
        seq![seq![q[0]] + rest[0]] + rest.drop_first()
    }
}

pub proof fn lemma_split_on_nonempty(q: Seq<char>, sep: char)
    ensures
        split_on(q, sep).len() >= 1,
    decreases q.len(),
{
    if q.len() > 0 {
        lemma_split_on_nonempty(q.drop_first(), sep);
    }
}

/// A well-formed segment is a single `key=value` pair: splitting it at `=`
/// yields exactly a key part and a value part.
pub open spec fn parse_segment(seg: Seq<char>) -> Option<ParamPair> {
    let sp = split_on(seg, '=');
    if sp.len() == 2 {
        Some((sp[0], sp[1]))
    } else {
        None
    }
}

/// Parsing an `&`-delimited, `=`-delimited query string into its pairs, in
/// order of appearance. `None` when some segment is not a single
/// `key=value` pair.
pub open spec fn split_query_spec(q: Seq<char>) -> Option<Seq<ParamPair>> {
    let segs = split_on(q, '&');
    if forall|i: int| 0 <= i < segs.len() ==> (#[trigger] parse_segment(segs[i])) is Some {
        Some(Seq::new(segs.len(), |i: int| parse_segment(segs[i]).unwrap()))
    } else {
        None
    }
}

/// Inserting a sequence of pairs, in order, into an existing parameter
/// sequence.
pub open spec fn insert_all(init: Seq<ParamPair>, ps: Seq<ParamPair>) -> Seq<ParamPair>
    decreases ps.len(),
{
    if ps.len() == 0 {
        init
    } else {
        insert_all(spec_insert(init, ps[0].0, ps[0].1), ps.drop_first())
    }
}

pub proof fn lemma_insert_all_push(init: Seq<ParamPair>, ps: Seq<ParamPair>, x: ParamPair)
    ensures
        insert_all(init, ps.push(x)) == spec_insert(insert_all(init, ps), x.0, x.1),
    decreases ps.len(),
{
    let p = ps.push(x);
    if ps.len() == 0 {
        assert(p[0] == x);
        assert(p.drop_first() =~= Seq::<ParamPair>::empty());
        assert(insert_all(init, p) == insert_all(spec_insert(init, x.0, x.1), p.drop_first()));
        assert(insert_all(spec_insert(init, x.0, x.1), p.drop_first()) == spec_insert(
            init,
            x.0,
            x.1,
        ));
        assert(insert_all(init, ps) == init);
    } else {
        assert(p[0] == ps[0]);
        assert(p.drop_first() =~= ps.drop_first().push(x));
        lemma_insert_all_push(spec_insert(init, ps[0].0, ps[0].1), ps.drop_first(), x);
        assert(insert_all(init, p) == insert_all(
            spec_insert(init, ps[0].0, ps[0].1),
            p.drop_first(),
        ));
        assert(insert_all(init, ps) == insert_all(
            spec_insert(init, ps[0].0, ps[0].1),
            ps.drop_first(),
        ));
    }
}

/// Sequences denoting the same mapping still denote the same mapping after
/// appending the same pairs.
proof fn lemma_pairs_to_map_concat(a: Seq<ParamPair>, b: Seq<ParamPair>, t: Seq<ParamPair>)
    requires
        pairs_to_map(a) == pairs_to_map(b),
    ensures
        pairs_to_map(a + t) == pairs_to_map(b + t),
    decreases t.len(),
{
    if t.len() == 0 {
        assert(a + t =~= a);
        assert(b + t =~= b);
    } else {
        lemma_pairs_to_map_concat(a, b, t.drop_last());
        assert((a + t).drop_last() =~= a + t.drop_last());
        assert((b + t).drop_last() =~= b + t.drop_last());
        assert((a + t).last() == t.last());
        assert((b + t).last() == t.last());
    }
}

/// Inserting pairs one by one denotes the mapping of the concatenation, and
/// keeps keys unique.
pub proof fn lemma_insert_all_props(init: Seq<ParamPair>, ps: Seq<ParamPair>)
    requires
        unique_keys(init),
    ensures
        unique_keys(insert_all(init, ps)),
        pairs_to_map(insert_all(init, ps)) == pairs_to_map(init + ps),
    decreases ps.len(),
{
    if ps.len() == 0 {
        assert(init + ps =~= init);
    } else {
        let h = ps[0];
        let ins = spec_insert(init, h.0, h.1);
        lemma_spec_insert_props(init, h.0, h.1);
        lemma_insert_all_props(ins, ps.drop_first());
        assert(pairs_to_map(ins) == pairs_to_map(init).insert(h.0, h.1));
        assert(pairs_to_map(init + seq![h]) == pairs_to_map(init).insert(h.0, h.1)) by {
            assert((init + seq![h]).drop_last() =~= init);
            assert((init + seq![h]).last() == h);
        }
        lemma_pairs_to_map_concat(ins, init + seq![h], ps.drop_first());
        assert((init + seq![h]) + ps.drop_first() =~= init + ps);
    }
}

/// Splits a string at every occurrence of a separator character.
fn split_char(s: &str, sep: char) -> (r: Vec<String>)
    ensures
        r.deep_view() == split_on(s@, sep),
{
    let n = s.unicode_len();
    let mut done: Vec<String> = Vec::new();
    let mut cur = String::new();
    let mut i: usize = 0;
    proof {
        lemma_split_on_nonempty(s@, sep);
        assert(s@.skip(0) =~= s@);
        let sp = split_on(s@, sep);
        assert(sp =~= seq![sp[0]] + sp.drop_first());
        assert(cur@ + sp[0] =~= sp[0]);
        assert(done.deep_view() =~= Seq::<Seq<char>>::empty());
        assert(split_on(s@, sep) =~= done.deep_view() + seq![cur@ + sp[0]] + sp.drop_first());
    }
    while i < n
        invariant
            i <= n,
            n == s@.len(),
            split_on(s@, sep) == done.deep_view() + seq![
                cur@ + split_on(s@.skip(i as int), sep)[0],
            ] + split_on(s@.skip(i as int), sep).drop_first(),
        decreases n - i,
    {
        let ghost pre_done = done.deep_view();
        let ghost pre_cur = cur@;
        let ghost tail = s@.skip(i as int);
        let ghost tail2 = s@.skip(i + 1);
        proof {
            assert(tail.len() > 0);
            assert(tail[0] == s@[i as int]);
            assert(tail.drop_first() =~= tail2);
            lemma_split_on_nonempty(tail2, sep);
            assert(split_on(tail2, sep) =~= seq![split_on(tail2, sep)[0]] + split_on(
                tail2,
                sep,
            ).drop_first());
        }
        let c = s.get_char(i);
        if c == sep {
            done.push(cur);
            cur = String::new();
            proof {
                assert(split_on(tail, sep) == seq![Seq::<char>::empty()] + split_on(tail2, sep));
                assert(split_on(tail, sep)[0] =~= Seq::<char>::empty());
                assert(split_on(tail, sep).drop_first() =~= split_on(tail2, sep));
                assert(pre_cur + split_on(tail, sep)[0] =~= pre_cur);
                assert(done.deep_view() =~= pre_done.push(pre_cur));
                assert(cur@ + split_on(tail2, sep)[0] =~= split_on(tail2, sep)[0]);
                assert(pre_done + seq![pre_cur] + split_on(tail2, sep) =~= pre_done.push(pre_cur)
                    + seq![split_on(tail2, sep)[0]] + split_on(tail2, sep).drop_first());
                assert(split_on(s@, sep) == done.deep_view() + seq![
                    cur@ + split_on(tail2, sep)[0],
                ] + split_on(tail2, sep).drop_first());
            }
        } else {
            push_char(&mut cur, c);
            proof {
                let r0 = split_on(tail2, sep)[0];
                let rd = split_on(tail2, sep).drop_first();
                assert(split_on(tail, sep) == seq![seq![tail[0]] + r0] + rd);
                assert(split_on(tail, sep)[0] == seq![tail[0]] + r0);
                assert(split_on(tail, sep).drop_first() =~= rd);
                assert(cur@ =~= pre_cur.push(c));
                assert(pre_cur + (seq![tail[0]] + r0) =~= cur@ + r0);
                assert(pre_cur + split_on(tail, sep)[0] =~= cur@ + r0);
                assert(split_on(s@, sep) == done.deep_view() + seq![cur@ + r0] + rd);
            }
        }
        i += 1;
    }
    proof {
        assert(s@.skip(n as int) =~= Seq::<char>::empty());
        assert(split_on(s@.skip(n as int), sep) == seq![Seq::<char>::empty()]);
        assert(cur@ + split_on(s@.skip(n as int), sep)[0] =~= cur@);
        assert(split_on(s@.skip(n as int), sep).drop_first() =~= Seq::<Seq<char>>::empty());
    }
    done.push(cur);
    proof {
        assert(done.deep_view() =~= split_on(s@, sep));
    }
    done
}

/// Parses an `&`-delimited, `=`-delimited response body back into a
/// parameter set. Each segment must be a single `key=value` pair; a segment
/// violating this yields a malformed-response error. Values are taken
/// verbatim, as the wire format carries them.
pub fn split_query(query: &str) -> (r: Result<ParamList, OauthError>)
    ensures
        match r {
            Ok(p) => split_query_spec(query@) is Some && p@ == insert_all(
                Seq::empty(),
                split_query_spec(query@).unwrap(),
            ) && p.wf() && p.as_map() == pairs_to_map(split_query_spec(query@).unwrap()),
            Err(e) => split_query_spec(query@) is None && e == OauthError::MalformedResponse,
        },
{
    let segs = split_char(query, '&');
    let mut param = ParamList::new();
    let n = segs.len();
    let mut i: usize = 0;
    while i < n
        invariant
            i <= n,
            n == segs@.len(),
            segs.deep_view() == split_on(query@, '&'),
            forall|j: int| 0 <= j < i ==> (#[trigger] parse_segment(segs.deep_view()[j])) is Some,
            param@ == insert_all(
                Seq::empty(),
                Seq::new(i as nat, |j: int| parse_segment(segs.deep_view()[j]).unwrap()),
            ),
            param.wf(),
        decreases n - i,
    {
        let parts = split_char(segs[i].as_str(), '=');
        proof {
            assert(segs@[i as int]@ == segs.deep_view()[i as int]);
        }
        if parts.len() != 2 {
            proof {
                assert(parse_segment(segs.deep_view()[i as int]) is None);
            }
            return Err(OauthError::MalformedResponse);
        }
        let k = parts[0].clone();
        let v = parts[1].clone();
        proof {
            assert(parts.deep_view()[0] == parts@[0]@);
            assert(parts.deep_view()[1] == parts@[1]@);
            assert(parse_segment(segs.deep_view()[i as int]) == Some((k@, v@)));
        }
        let ghost pre = Seq::new(i as nat, |j: int| parse_segment(segs.deep_view()[j]).unwrap());
        insert_param(&mut param, k, v);
        proof {
            let nxt = Seq::new(
                (i + 1) as nat,
                |j: int| parse_segment(segs.deep_view()[j]).unwrap(),
            );
            assert(nxt =~= pre.push((k@, v@)));
            lemma_insert_all_push(Seq::empty(), pre, (k@, v@));
        }
        i += 1;
    }
    proof {
        let segsv = segs.deep_view();
        assert(split_query_spec(query@) is Some);
        let ps = split_query_spec(query@).unwrap();
        assert(ps =~= Seq::new(n as nat, |j: int| parse_segment(segsv[j]).unwrap()));
        lemma_insert_all_props(Seq::empty(), ps);
        assert(Seq::<ParamPair>::empty() + ps =~= ps);
    }
    Ok(param)
}

} // verus!

verus! {

/// Encoding a pair: both the key and the value percent-encoded.
pub open spec fn encode_pair_fn() -> spec_fn(ParamPair) -> ParamPair {
    |p: ParamPair| (encode_str_spec(p.0), encode_str_spec(p.1))
}

/// The string is the rendering of one of the sequence's pairs.
spec fn from_render(ps: Seq<ParamPair>, s: Seq<char>) -> bool {
    exists|w: int| 0 <= w < ps.len() && s == query_pair_fn()(ps[w])
}

/// A string without the separator is one whole segment.
proof fn lemma_split_on_no_sep(q: Seq<char>, sep: char)
    requires
        forall|i: int| 0 <= i < q.len() ==> q[i] != sep,
    ensures
        split_on(q, sep) == seq![q],
    decreases q.len(),
{
    if q.len() == 0 {
        assert(split_on(q, sep) == seq![Seq::<char>::empty()]);
        assert(Seq::<char>::empty() =~= q);
    } else {
        assert(q[0] != sep);
        let d = q.drop_first();
        assert(forall|i: int| 0 <= i < d.len() ==> d[i] == q[i + 1]);
        lemma_split_on_no_sep(d, sep);
        assert(split_on(d, sep)[0] == d);
        assert(split_on(d, sep).drop_first() =~= Seq::<Seq<char>>::empty());
        assert(seq![q[0]] + d =~= q);
        assert(split_on(q, sep) =~= seq![q]);
    }
}

/// Splitting `p`, a separator, then `t`, with `p` separator-free: `p` is
/// the first segment, and the rest splits as `t` does.
proof fn lemma_split_on_concat(p: Seq<char>, t: Seq<char>, sep: char)
    requires
        forall|i: int| 0 <= i < p.len() ==> p[i] != sep,
    ensures
        split_on(p + seq![sep] + t, sep) == seq![p] + split_on(t, sep),
    decreases p.len(),
{
    let q = p + seq![sep] + t;
    if p.len() == 0 {
        assert(q =~= seq![sep] + t);
        assert(q[0] == sep);
        assert(q.drop_first() =~= t);
        assert(split_on(q, sep) == seq![Seq::<char>::empty()] + split_on(t, sep));
        assert(Seq::<char>::empty() =~= p);
    } else {
        assert(q.len() > 0);
        assert(q[0] == p[0]);
        assert(q[0] != sep);
        let d = p.drop_first();
        assert(forall|i: int| 0 <= i < d.len() ==> d[i] == p[i + 1]);
        lemma_split_on_concat(d, t, sep);
        assert(q.drop_first() =~= d + seq![sep] + t);
        let rest = split_on(q.drop_first(), sep);
        assert(rest == seq![d] + split_on(t, sep));
        assert(rest[0] == d);
        assert(rest.drop_first() =~= split_on(t, sep));
        assert(seq![q[0]] + d =~= p);
        assert(split_on(q, sep) =~= seq![p] + split_on(t, sep));
    }
}

/// Splitting a joined list of separator-free parts recovers the parts.
proof fn lemma_split_join(parts: Seq<Seq<char>>, sep: char)
    requires
        parts.len() > 0,
        forall|i: int, j: int|
            0 <= i < parts.len() && 0 <= j < parts[i].len() ==> parts[i][j] != sep,
    ensures
        split_on(join_with_spec(parts, seq![sep]), sep) == parts,
    decreases parts.len(),
{
    if parts.len() == 1 {
        assert(join_with_spec(parts, seq![sep]) == parts[0]);
        assert(forall|j: int| 0 <= j < parts[0].len() ==> parts[0][j] != sep);
        lemma_split_on_no_sep(parts[0], sep);
        assert(seq![parts[0]] =~= parts);
    } else {
        let d = parts.drop_first();
        assert(forall|i: int| 0 <= i < d.len() ==> d[i] == parts[i + 1]);
        assert forall|i: int, j: int|
            0 <= i < d.len() && 0 <= j < d[i].len() implies d[i][j] != sep by {
            assert(d[i] == parts[i + 1]);
        }
        lemma_split_join(d, sep);
        let jd = join_with_spec(d, seq![sep]);
        assert(join_with_spec(parts, seq![sep]) == parts[0] + seq![sep] + jd);
        assert(forall|j: int| 0 <= j < parts[0].len() ==> parts[0][j] != sep);
        lemma_split_on_concat(parts[0], jd, sep);
        assert(seq![parts[0]] + d =~= parts);
    }
}

/// A rendered `key=value` pair holds no `&`, and parses back to exactly the
/// encoded key and the encoded value.
proof fn lemma_query_pair_parses(p: ParamPair)
    ensures
        forall|j: int|
            0 <= j < query_pair_fn()(p).len() ==> (#[trigger] query_pair_fn()(p)[j]) != '&',
        parse_segment(query_pair_fn()(p)) == Some(encode_pair_fn()(p)),
{
    reveal_strlit("=");
    let ek = encode_str_spec(p.0);
    let ev = encode_str_spec(p.1);
    let qp = query_pair_fn()(p);
    assert("="@ =~= seq!['=']);
    assert(qp =~= ek + seq!['='] + ev);
    crate::encoding::lemma_percent_encode_chars(vstd::utf8::encode_utf8(p.0));
    crate::encoding::lemma_percent_encode_chars(vstd::utf8::encode_utf8(p.1));
    assert(forall|j: int| 0 <= j < ek.len() ==> ek[j] != '=' && ek[j] != '&');
    assert(forall|j: int| 0 <= j < ev.len() ==> ev[j] != '=' && ev[j] != '&');
    assert forall|j: int| 0 <= j < qp.len() implies (#[trigger] qp[j]) != '&' by {
        if j < ek.len() {
            assert(qp[j] == ek[j]);
        } else if j == ek.len() {
            assert(qp[j] == '=');
        } else {
            assert(qp[j] == ev[j - ek.len() - 1]);
        }
    }
    lemma_split_on_concat(ek, ev, '=');
    lemma_split_on_no_sep(ev, '=');
    assert(split_on(qp, '=') == seq![ek] + seq![ev]);
    assert(split_on(qp, '=').len() == 2);
    assert(split_on(qp, '=')[0] == ek);
    assert(split_on(qp, '=')[1] == ev);
}

/// LAW: round trip over the encode/serialize boundary. Parsing the
/// canonical serialization of a non-empty parameter sequence succeeds, and
/// recovers exactly the original pairs with key and value percent-encoded —
/// the same logical pairs, compared after re-encoding.
pub proof fn lemma_split_join_round_trip(ps: Seq<ParamPair>)
    requires
        ps.len() > 0,
    ensures
        split_query_spec(join_query_spec(ps)) is Some,
        split_query_spec(join_query_spec(ps)).unwrap().to_multiset() == ps.map_values(
            encode_pair_fn(),
        ).to_multiset(),
{
    broadcast use vstd::seq_lib::group_to_multiset_ensures;

    reveal_strlit("&");
    assert("&"@ =~= seq!['&']);
    let mapped = ps.map_values(query_pair_fn());
    lemma_lex_total_ordering();
    mapped.lemma_sort_by_ensures(lex_leq_fn());
    let sorted = mapped.sort_by(lex_leq_fn());
    assert(sorted.to_multiset() == mapped.to_multiset());
    assert(sorted.len() == mapped.len()) by {
        assert(sorted.to_multiset().len() == mapped.to_multiset().len());
    }
    assert(sorted.len() > 0);
    assert forall|i: int| 0 <= i < sorted.len() implies #[trigger] from_render(ps, sorted[i]) by {
        assert(sorted.contains(sorted[i]));
        assert(sorted.to_multiset().count(sorted[i]) > 0);
        assert(mapped.to_multiset().count(sorted[i]) > 0);
        assert(mapped.contains(sorted[i]));
        let w = choose|w: int| 0 <= w < mapped.len() && mapped[w] == sorted[i];
        assert(mapped[w] == query_pair_fn()(ps[w]));
        assert(0 <= w < ps.len() && sorted[i] == query_pair_fn()(ps[w]));
    }
    assert forall|i: int, j: int|
        0 <= i < sorted.len() && 0 <= j < sorted[i].len() implies sorted[i][j] != '&' by {
        assert(from_render(ps, sorted[i]));
        let w = choose|w: int| 0 <= w < ps.len() && sorted[i] == query_pair_fn()(ps[w]);
        lemma_query_pair_parses(ps[w]);
    }
    let joined = join_query_spec(ps);
    assert(joined == join_with_spec(sorted, seq!['&']));
    lemma_split_join(sorted, '&');
    assert(split_on(joined, '&') == sorted);
    assert forall|i: int|
        0 <= i < sorted.len() implies (#[trigger] parse_segment(sorted[i])) is Some by {
        assert(from_render(ps, sorted[i]));
        let w = choose|w: int| 0 <= w < ps.len() && sorted[i] == query_pair_fn()(ps[w]);
        lemma_query_pair_parses(ps[w]);
    }
    assert(split_query_spec(joined) is Some);
    let parsed = split_query_spec(joined).unwrap();
    let g = |s: Seq<char>| parse_segment(s).unwrap();
    assert(parsed =~= sorted.map_values(g));
    lemma_map_values_multiset(sorted, mapped, g);
    assert(mapped.map_values(g) =~= ps.map_values(encode_pair_fn())) by {
        assert forall|i: int| 0 <= i < ps.len() implies mapped.map_values(g)[i]
            == encode_pair_fn()(ps[i]) by {
            lemma_query_pair_parses(ps[i]);
            assert(mapped[i] == query_pair_fn()(ps[i]));
            assert(g(mapped[i]) == parse_segment(query_pair_fn()(ps[i])).unwrap());
        }
    }
    assert(parsed.to_multiset() == ps.map_values(encode_pair_fn()).to_multiset());
}

} // verus!

verus! {

/// Under unique keys, a pair occurs exactly when the denoted mapping binds
/// its key to its value, and then exactly once.
proof fn lemma_wf_count(ps: Seq<ParamPair>, p: ParamPair)
    requires
        unique_keys(ps),
    ensures
        ps.to_multiset().count(p) == if pairs_to_map(ps).contains_key(p.0) && pairs_to_map(ps)[p.0]
            == p.1 {
            1nat
        } else {
            0nat
        },
    decreases ps.len(),
{
    broadcast use vstd::seq_lib::group_to_multiset_ensures;
    broadcast use vstd::multiset::group_multiset_axioms;

    if ps.len() == 0 {
        assert(ps.to_multiset().count(p) == 0) by {
            if ps.to_multiset().count(p) > 0 {
                assert(ps.contains(p));
            }
        }
    } else {
        let pre = ps.drop_last();
        let x = ps.last();
        assert(unique_keys(pre)) by {
            assert(forall|i: int, j: int|
                0 <= i < j < pre.len() ==> pre[i].0 == ps[i].0 && pre[j].0 == ps[j].0);
        }
        lemma_wf_count(pre, p);
        lemma_pairs_to_map_membership(pre);
        assert(ps =~= pre.push(x));
        assert(ps.to_multiset() == pre.to_multiset().insert(x));
        let mpre = pairs_to_map(pre);
        let m = pairs_to_map(ps);
        assert(m == mpre.insert(x.0, x.1));
        assert(!mpre.contains_key(x.0)) by {
            if mpre.contains_key(x.0) {
                let j = choose|j: int| 0 <= j < pre.len() && pre[j].0 == x.0;
                assert(ps[j].0 == ps[ps.len() - 1].0);
            }
        }
        if p == x {
            assert(pre.to_multiset().count(p) == 0);
            assert(ps.to_multiset().count(p) == 1);
        } else if p.0 == x.0 {
            assert(pre.to_multiset().count(p) == 0);
            assert(m[p.0] == x.1 && x.1 != p.1);
            assert(ps.to_multiset().count(p) == 0);
        } else {
            assert(m.contains_key(p.0) == mpre.contains_key(p.0));
            assert(m.contains_key(p.0) ==> m[p.0] == mpre[p.0]);
            assert(ps.to_multiset().count(p) == pre.to_multiset().count(p));
        }
    }
}

/// Parameter sequences with unique keys that denote the same mapping hold
/// exactly the same pairs.
pub proof fn lemma_same_map_same_pairs(ps1: Seq<ParamPair>, ps2: Seq<ParamPair>)
    requires
        unique_keys(ps1),
        unique_keys(ps2),
        pairs_to_map(ps1) == pairs_to_map(ps2),
    ensures
        ps1.to_multiset() == ps2.to_multiset(),
{
    broadcast use vstd::multiset::group_multiset_axioms;

    assert forall|p: ParamPair| true implies #[trigger] ps1.to_multiset().count(p)
        == ps2.to_multiset().count(p) by {
        lemma_wf_count(ps1, p);
        lemma_wf_count(ps2, p);
    }
    assert(ps1.to_multiset() =~= ps2.to_multiset());
}

/// LAW: for parameter sets built by insertions in any order, the canonical
/// parameter string is byte-identical: it depends only on the mapping the
/// set denotes, never on the insertion order that produced it.
pub proof fn lemma_join_query_map_determined(ps1: Seq<ParamPair>, ps2: Seq<ParamPair>)
    requires
        unique_keys(ps1),
        unique_keys(ps2),
        pairs_to_map(ps1) == pairs_to_map(ps2),
    ensures
        join_query_spec(ps1) == join_query_spec(ps2),
{
    lemma_same_map_same_pairs(ps1, ps2);
    lemma_join_query_order_independent(ps1, ps2);
}

} // verus!
