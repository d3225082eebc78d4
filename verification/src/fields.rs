//! The structured form of a validation failure: for each field that
//! failed, its name and the failed rules in order, the fields in strictly
//! increasing order of their names.
use crate::text::{
    chars_lt, chars_of, lemma_lex_irreflexive, lemma_lex_total, lemma_lex_transitive, lex_lt,
};
use crate::validation::ModelValidationMessage;
use vstd::prelude::*;

verus! {

/// One failed rule: its code, and its message where it has one.
pub type Entry = (Seq<char>, Option<Seq<char>>);

/// A field's name with its failed rules in order.
pub type Group = (Seq<char>, Seq<Entry>);

/// The fields stand in strictly increasing order of their names, so no
/// name occurs twice and a set of fields has one arrangement only.
pub open spec fn canonical(gs: Seq<Group>) -> bool {
    forall|i: int, j: int|
        #![trigger gs[i], gs[j]]
        0 <= i < j < gs.len() ==> lex_lt(gs[i].0, gs[j].0)
}

/// No field name occurs twice.
pub open spec fn distinct_fields(gs: Seq<Group>) -> bool {
    forall|i: int, j: int| #![trigger gs[i], gs[j]] 0 <= i < j < gs.len() ==> gs[i].0 != gs[j].0
}

/// The failed rules of `field`, where `gs` holds that field.
pub open spec fn lookup(gs: Seq<Group>, field: Seq<char>) -> Option<Seq<Entry>> {
    if exists|i: int| 0 <= i < gs.len() && (#[trigger] gs[i]).0 == field {
        let i = choose|i: int| 0 <= i < gs.len() && (#[trigger] gs[i]).0 == field;
        Some(gs[i].1)
    } else {
        None
    }
}

/// The list `gs` and the map `m` hold the same fields with the same
/// failed rules.
pub open spec fn represents(gs: Seq<Group>, m: Map<Seq<char>, Seq<Entry>>) -> bool {
    &&& forall|i: int|
        0 <= i < gs.len() ==> m.contains_key((#[trigger] gs[i]).0) && m[gs[i].0] == gs[i].1
    &&& forall|k: Seq<char>| #[trigger]
        m.contains_key(k) ==> exists|i: int| 0 <= i < gs.len() && (#[trigger] gs[i]).0 == k
}

/// The failed rules of one field.
#[derive(Debug, Clone, PartialEq, Eq)]
pub struct FieldMessages {
    pub field: String,
    pub messages: Vec<ModelValidationMessage>,
}

/// What a list of messages holds, as plain values.
pub open spec fn entries_view(ms: Seq<ModelValidationMessage>) -> Seq<Entry> {
    ms.map_values(|m: ModelValidationMessage| m@)
}

impl View for FieldMessages {
    type V = Group;

    open spec fn view(&self) -> Group {
        (self.field@, entries_view(self.messages@))
    }
}

/// What a list of fields holds, as plain values.
pub open spec fn groups_view(fs: Seq<FieldMessages>) -> Seq<Group> {
    fs.map_values(|f: FieldMessages| f@)
}

/// A structured validation failure. Its fields are always in canonical
/// order.
#[derive(Debug, PartialEq, Eq)]
pub struct StructuredErrors {
    groups: Vec<FieldMessages>,
}

impl View for StructuredErrors {
    type V = Seq<Group>;

    closed spec fn view(&self) -> Seq<Group> {
        groups_view(self.groups@)
    }
}

/// In a canonical list a name comes before every name behind it, so it
/// differs from each of them.
pub proof fn lemma_canonical_distinct(gs: Seq<Group>)
    requires
        canonical(gs),
    ensures
        distinct_fields(gs),
{
    assert forall|i: int, j: int| #![trigger gs[i], gs[j]] 0 <= i < j < gs.len() implies gs[i].0
        != gs[j].0 by {
        lemma_lex_irreflexive(gs[i].0);
    }
}

/// In a list without repeated names, looking a held name up gives the
/// rules that stand with it.
pub proof fn lemma_lookup_at(gs: Seq<Group>, i: int)
    requires
        distinct_fields(gs),
        0 <= i < gs.len(),
    ensures
        lookup(gs, gs[i].0) == Some(gs[i].1),
{
    let j = choose|j: int| 0 <= j < gs.len() && (#[trigger] gs[j]).0 == gs[i].0;
    assert(gs[j].0 == gs[i].0);
    if j < i {
        assert(gs[j].0 != gs[i].0);
    }
    if i < j {
        assert(gs[i].0 != gs[j].0);
    }
}

impl StructuredErrors {
    #[verifier::type_invariant]
    spec fn ordered(&self) -> bool {
        canonical(groups_view(self.groups@))
    }

    /// A failure that holds no field.
    pub fn empty() -> (r: StructuredErrors)
        ensures
            r@ == Seq::<Group>::empty(),
    {
        let groups: Vec<FieldMessages> = Vec::new();
        assert(groups_view(groups@) =~= Seq::<Group>::empty());
        StructuredErrors { groups }
    }

    /// Arranges the given fields in canonical order. There is no
    /// arrangement, and the result is `None`, exactly when two of them have
    /// the same name.
    pub fn new(groups: Vec<FieldMessages>) -> (r: Option<StructuredErrors>)
        ensures
            r is Some <==> distinct_fields(groups_view(groups@)),
            r matches Some(e) ==> canonical(e@) && e@.to_multiset() == groups_view(
                groups@,
            ).to_multiset(),
    {
        let ghost all = groups_view(groups@);
        let mut rest = groups;
        let mut out: Vec<FieldMessages> = Vec::new();
        assert(groups_view(out@) =~= all.skip(all.len() as int));
        assert(groups_view(rest@) =~= all.take(all.len() as int));
        while rest.len() > 0
            invariant
                all == groups_view(groups@),
                rest.len() <= all.len(),
                groups_view(rest@) == all.take(rest.len() as int),
                canonical(groups_view(out@)),
                groups_view(out@).to_multiset() == all.skip(rest.len() as int).to_multiset(),
                distinct_fields(all.skip(rest.len() as int)),
            decreases rest.len(),
        {
            let ghost k = rest.len() as int;
            let ghost before = groups_view(out@);
            let ghost prev = rest@;
            let item = rest.pop().unwrap();
            assert(item@ == all[k - 1]) by {
                assert(groups_view(prev)[k - 1] == prev[k - 1]@);
                assert(all.take(k)[k - 1] == all[k - 1]);
            }
            assert(groups_view(rest@) =~= all.take(k - 1)) by {
                assert(groups_view(prev.drop_last()) =~= groups_view(prev).drop_last());
                assert(all.take(k).drop_last() =~= all.take(k - 1));
            }
            let key = chars_of(item.field.as_str());
            let mut p: usize = 0;
            while p < out.len() && chars_lt(&chars_of(out[p].field.as_str()), &key)
                invariant
                    p <= out.len(),
                    key@ == item.field@,
                    forall|j: int| 0 <= j < p ==> lex_lt(#[trigger] out@[j].field@, key@),
                decreases out.len() - p,
            {
                p = p + 1;
            }
            if p < out.len() && !chars_lt(&key, &chars_of(out[p].field.as_str())) {
                proof {
                    lemma_lex_total(out@[p as int].field@, key@);
                    let twin = before[p as int];
                    assert(twin.0 == item@.0);
                    lemma_member_of_skip(all, k, before, p as int);
                    let m = choose|m: int| k <= m < all.len() && all[m] == twin;
                    assert(all[k - 1].0 == all[m].0);
                }
                return None;
            }
            out.insert(p, item);
            proof {
                let after = groups_view(out@);
                let x = all[k - 1];
                assert(after =~= before.insert(p as int, x));
                vstd::seq_lib::to_multiset_insert(before, p as int, x);
                assert(all.skip(k - 1) =~= all.skip(k).insert(0, x));
                vstd::seq_lib::to_multiset_insert(all.skip(k), 0, x);
                assert forall|i: int, j: int|
                    #![trigger after[i], after[j]]
                    0 <= i < j < after.len() implies lex_lt(after[i].0, after[j].0) by {
                    if j < p {
                        assert(lex_lt(before[i].0, before[j].0));
                    } else if j == p {
                        assert(lex_lt(out@[i].field@, key@));
                    } else if i == p {
                        assert(lex_lt(x.0, before[p as int].0));
                        if j > p + 1 {
                            assert(lex_lt(before[p as int].0, before[j - 1].0));
                            lemma_lex_transitive(x.0, before[p as int].0, before[j - 1].0);
                        }
                    } else if i < p {
                        assert(lex_lt(before[i].0, before[j - 1].0));
                    } else {
                        assert(lex_lt(before[i - 1].0, before[j - 1].0));
                    }
                }
                lemma_canonical_distinct(after);
                assert forall|i: int, j: int|
                    #![trigger all.skip(k - 1)[i], all.skip(k - 1)[j]]
                    0 <= i < j < all.skip(k - 1).len() implies all.skip(k - 1)[i].0 != all.skip(
                    k - 1,
                )[j].0 by {
                    if i == 0 {
                        let y = all.skip(k)[j - 1];
                        assert(all.skip(k - 1)[j] == y);
                        lemma_member_of(before, all.skip(k), j - 1);
                        let q = choose|q: int| 0 <= q < before.len() && before[q] == y;
                        if q < p {
                            assert(after[q] == y && after[p as int] == x);
                            lemma_lex_irreflexive(x.0);
                        } else {
                            assert(after[q + 1] == y && after[p as int] == x);
                            lemma_lex_irreflexive(x.0);
                        }
                    } else {
                        assert(all.skip(k - 1)[i] == all.skip(k)[i - 1]);
                        assert(all.skip(k - 1)[j] == all.skip(k)[j - 1]);
                    }
                }
            }
        }
        proof {
            assert(all.skip(0) =~= all);
        }
        Some(StructuredErrors { groups: out })
    }

    /// Takes the fields as they stand, if they stand in canonical order.
    pub fn from_ordered(groups: Vec<FieldMessages>) -> (r: Option<StructuredErrors>)
        ensures
            r is Some <==> canonical(groups_view(groups@)),
            r matches Some(e) ==> e@ == groups_view(groups@),
    {
        let ghost gs = groups_view(groups@);
        let mut i: usize = 0;
        while i < groups.len()
            invariant
                i <= groups.len(),
                gs == groups_view(groups@),
                canonical(gs.take(i as int)),
            decreases groups.len() - i,
        {
            if i > 0 {
                let low = chars_of(groups[i - 1].field.as_str());
                let high = chars_of(groups[i].field.as_str());
                assert(gs[i - 1].0 == low@ && gs[i as int].0 == high@);
                if !chars_lt(&low, &high) {
                    return None;
                }
            }
            proof {
                let seen = gs.take(i as int);
                let next = gs.take(i + 1);
                assert forall|a: int, b: int|
                    #![trigger next[a], next[b]]
                    0 <= a < b < next.len() implies lex_lt(next[a].0, next[b].0) by {
                    if b < i {
                        assert(lex_lt(seen[a].0, seen[b].0));
                    } else if a < i - 1 {
                        assert(lex_lt(seen[a].0, seen[i - 1].0));
                        lemma_lex_transitive(next[a].0, gs[i - 1].0, next[b].0);
                    }
                }
            }
            i = i + 1;
        }
        proof {
            assert(gs.take(groups.len() as int) =~= gs);
        }
        Some(StructuredErrors { groups })
    }

    /// The fields in canonical order.
    pub fn groups(&self) -> (r: &Vec<FieldMessages>)
        ensures
            groups_view(r@) == self@,
            canonical(self@),
    {
        proof {
            use_type_invariant(self);
        }
        &self.groups
    }

    /// The number of fields that failed.
    pub fn len(&self) -> (n: usize)
        ensures
            n == self@.len(),
    {
        self.groups.len()
    }

    /// Whether no field failed.
    pub fn is_empty(&self) -> (r: bool)
        ensures
            r == (self@.len() == 0),
    {
        self.groups.len() == 0
    }

    /// The failed rules of the field called `field`, if that field failed.
    pub fn get(&self, field: &str) -> (r: Option<&Vec<ModelValidationMessage>>)
        ensures
            match r {
                Some(ms) => lookup(self@, field@) == Some(entries_view(ms@)),
                None => lookup(self@, field@) is None,
            },
    {
        proof {
            use_type_invariant(self);
            lemma_canonical_distinct(self@);
        }
        let key = field.to_owned();
        let mut i: usize = 0;
        while i < self.groups.len()
            invariant
                i <= self.groups.len(),
                key@ == field@,
                distinct_fields(self@),
                forall|j: int| 0 <= j < i ==> (#[trigger] self@[j]).0 != field@,
            decreases self.groups.len() - i,
        {
            if self.groups[i].field == key {
                proof {
                    assert(self@[i as int] == self.groups@[i as int]@);
                    lemma_lookup_at(self@, i as int);
                }
                return Some(&self.groups[i].messages);
            }
            assert(self@[i as int] == self.groups@[i as int]@);
            i = i + 1;
        }
        None
    }
}

/// An element of a list occurs in every list with the same elements.
pub proof fn lemma_member_of(a: Seq<Group>, b: Seq<Group>, j: int)
    requires
        a.to_multiset() == b.to_multiset(),
        0 <= j < b.len(),
    ensures
        exists|q: int| 0 <= q < a.len() && a[q] == b[j],
{
    vstd::seq_lib::to_multiset_contains(a, b[j]);
    vstd::seq_lib::to_multiset_contains(b, b[j]);
    assert(b.contains(b[j]));
}

/// An element of an arrangement of the tail of `all` occurs in that tail.
pub proof fn lemma_member_of_skip(all: Seq<Group>, k: int, a: Seq<Group>, p: int)
    requires
        0 <= k <= all.len(),
        a.to_multiset() == all.skip(k).to_multiset(),
        0 <= p < a.len(),
    ensures
        exists|m: int| k <= m < all.len() && all[m] == a[p],
{
    lemma_member_of(all.skip(k), a, p);
    let q = choose|q: int| 0 <= q < all.skip(k).len() && all.skip(k)[q] == a[p];
    assert(all[k + q] == a[p]);
}

/// A set of fields has one canonical arrangement only: two canonical
/// lists that hold the same fields with the same failed rules are the
/// same list. So the canonical form of a report, and with it its text,
/// does not depend on the order in which the fields were listed.
pub proof fn lemma_canonical_unique(a: Seq<Group>, b: Seq<Group>, m: Map<Seq<char>, Seq<Entry>>)
    requires
        canonical(a),
        canonical(b),
        represents(a, m),
        represents(b, m),
    ensures
        a == b,
    decreases a.len(),
{
    if a.len() == 0 {
        if b.len() > 0 {
            assert(m.contains_key(b[0].0));
        }
        assert(a =~= b);
    } else {
        assert(m.contains_key(a[0].0));
        let j = choose|j: int| 0 <= j < b.len() && (#[trigger] b[j]).0 == a[0].0;
        assert(m.contains_key(b[0].0));
        let i = choose|i: int| 0 <= i < a.len() && (#[trigger] a[i]).0 == b[0].0;
        if j > 0 {
            assert(lex_lt(b[0].0, b[j].0));
            if i > 0 {
                assert(lex_lt(a[0].0, a[i].0));
                lemma_lex_transitive(a[0].0, b[0].0, a[0].0);
            }
            lemma_lex_irreflexive(a[0].0);
        }
        assert(b[0].0 == a[0].0);
        assert(a[0] == b[0]);
        let key = a[0].0;
        let rest = m.remove(key);
        lemma_canonical_distinct(a);
        lemma_canonical_distinct(b);
        lemma_represents_tail(a, m);
        lemma_represents_tail(b, m);
        assert(canonical(a.drop_first())) by {
            assert forall|x: int, y: int|
                #![trigger a.drop_first()[x], a.drop_first()[y]]
                0 <= x < y < a.drop_first().len() implies lex_lt(
                a.drop_first()[x].0,
                a.drop_first()[y].0,
            ) by {
                assert(lex_lt(a[x + 1].0, a[y + 1].0));
            }
        }
        assert(canonical(b.drop_first())) by {
            assert forall|x: int, y: int|
                #![trigger b.drop_first()[x], b.drop_first()[y]]
                0 <= x < y < b.drop_first().len() implies lex_lt(
                b.drop_first()[x].0,
                b.drop_first()[y].0,
            ) by {
                assert(lex_lt(b[x + 1].0, b[y + 1].0));
            }
        }
        lemma_canonical_unique(a.drop_first(), b.drop_first(), rest);
        assert(a =~= seq![a[0]] + a.drop_first());
        assert(b =~= seq![b[0]] + b.drop_first());
    }
}

/// Without its first field, a list without repeated names holds what the
/// map holds without that field.
pub proof fn lemma_represents_tail(gs: Seq<Group>, m: Map<Seq<char>, Seq<Entry>>)
    requires
        gs.len() > 0,
        distinct_fields(gs),
        represents(gs, m),
    ensures
        represents(gs.drop_first(), m.remove(gs[0].0)),
{
    let tail = gs.drop_first();
    let rest = m.remove(gs[0].0);
    assert forall|i: int| 0 <= i < tail.len() implies rest.contains_key((#[trigger] tail[i]).0)
        && rest[tail[i].0] == tail[i].1 by {
        assert(tail[i] == gs[i + 1]);
        assert(gs[0].0 != gs[i + 1].0);
        assert(m.contains_key(gs[i + 1].0));
    }
    assert forall|k: Seq<char>| #[trigger] rest.contains_key(k) implies exists|i: int|
        0 <= i < tail.len() && (#[trigger] tail[i]).0 == k by {
        assert(m.contains_key(k));
        let j = choose|j: int| 0 <= j < gs.len() && (#[trigger] gs[j]).0 == k;
        assert(j > 0);
        assert(tail[j - 1] == gs[j]);
    }
}

/// Two lists with the same elements hold the same fields with the same
/// failed rules.
pub proof fn lemma_represents_rearranged(a: Seq<Group>, b: Seq<Group>, m: Map<Seq<char>, Seq<Entry>>)
    requires
        a.to_multiset() == b.to_multiset(),
        represents(a, m),
    ensures
        represents(b, m),
{
    assert forall|i: int| 0 <= i < b.len() implies m.contains_key((#[trigger] b[i]).0) && m[b[i].0]
        == b[i].1 by {
        lemma_member_of(a, b, i);
        let q = choose|q: int| 0 <= q < a.len() && a[q] == b[i];
        assert(m.contains_key(a[q].0));
    }
    assert forall|k: Seq<char>| #[trigger] m.contains_key(k) implies exists|i: int|
        0 <= i < b.len() && (#[trigger] b[i]).0 == k by {
        let j = choose|j: int| 0 <= j < a.len() && (#[trigger] a[j]).0 == k;
        lemma_member_of(b, a, j);
        let q = choose|q: int| 0 <= q < b.len() && b[q] == a[j];
        assert(b[q].0 == k);
    }
}

} // verus!
