//! The text form in which a structured validation failure crosses a
//! channel that holds nothing but text, and the reader that takes such a
//! text apart again.
//!
//! A text is a count of fields and the fields in order. A field is its
//! name, a count of failed rules and the rules in order. A rule is its
//! code and then either `-`, or `+` and its message. A count is a
//! canonical decimal numeral and `;`. A name, a code or a message is the
//! numeral of its length, `:` and its characters as they are.
use crate::fields::{canonical, entries_view, groups_view, Entry, FieldMessages, Group};
use crate::text::{
    is_digit, lemma_occurs_concat, lemma_read_nat_complete, lemma_read_nat_sound, nat_text,
    occurs_at, parse_nat, push_nat, read_nat, string_of,
};
use crate::validation::ModelValidationMessage;
use vstd::prelude::*;
use vstd::string::*;

verus! {

/// A string: the numeral of its length, `:`, and its characters.
pub open spec fn str_text(s: Seq<char>) -> Seq<char> {
    nat_text(s.len()) + seq![':'] + s
}

/// A count: its numeral and `;`.
pub open spec fn count_text(n: nat) -> Seq<char> {
    nat_text(n) + seq![';']
}

/// A failed rule: its code, then `-` where it has no message, else `+` and
/// the message.
pub open spec fn entry_text(e: Entry) -> Seq<char> {
    match e.1 {
        None => str_text(e.0) + seq!['-'],
        Some(m) => str_text(e.0) + seq!['+'] + str_text(m),
    }
}

/// Failed rules, one after the other.
pub open spec fn entries_text(es: Seq<Entry>) -> Seq<char>
    decreases es.len(),
{
    if es.len() == 0 {
        Seq::empty()
    } else {
        entries_text(es.drop_last()) + entry_text(es.last())
    }
}

/// A field: its name, the count of its failed rules, and the rules.
pub open spec fn group_text(g: Group) -> Seq<char> {
    str_text(g.0) + count_text(g.1.len()) + entries_text(g.1)
}

/// Fields, one after the other.
pub open spec fn groups_text(gs: Seq<Group>) -> Seq<char>
    decreases gs.len(),
{
    if gs.len() == 0 {
        Seq::empty()
    } else {
        groups_text(gs.drop_last()) + group_text(gs.last())
    }
}

/// The text of a structured validation failure: the count of its fields
/// and the fields.
pub open spec fn encode_spec(gs: Seq<Group>) -> Seq<char> {
    count_text(gs.len()) + groups_text(gs)
}

/// Reads a string at `pos`. Gives the string and the position behind it.
pub open spec fn read_str(s: Seq<char>, pos: int) -> Option<(Seq<char>, int)> {
    match read_nat(s, pos) {
        Some((n, p)) => {
            if p < s.len() && s[p] == ':' && p + 1 + n <= s.len() {
                Some((s.subrange(p + 1, p + 1 + n), p + 1 + n))
            } else {
                None
            }
        },
        None => None,
    }
}

/// Reads a count at `pos`.
pub open spec fn read_count(s: Seq<char>, pos: int) -> Option<(nat, int)> {
    match read_nat(s, pos) {
        Some((n, p)) => {
            if p < s.len() && s[p] == ';' {
                Some((n, p + 1))
            } else {
                None
            }
        },
        None => None,
    }
}

/// Reads a failed rule at `pos`.
pub open spec fn read_entry(s: Seq<char>, pos: int) -> Option<(Entry, int)> {
    match read_str(s, pos) {
        Some((code, p)) => {
            if p < s.len() && s[p] == '-' {
                Some(((code, None), p + 1))
            } else if p < s.len() && s[p] == '+' {
                match read_str(s, p + 1) {
                    Some((m, q)) => Some(((code, Some(m)), q)),
                    None => None,
                }
            } else {
                None
            }
        },
        None => None,
    }
}

/// Reads `count` failed rules from `pos` on.
pub open spec fn read_entries(s: Seq<char>, pos: int, count: nat) -> Option<(Seq<Entry>, int)>
    decreases count,
{
    if count == 0 {
        Some((Seq::empty(), pos))
    } else {
        match read_entries(s, pos, (count - 1) as nat) {
            Some((es, p)) => match read_entry(s, p) {
                Some((e, q)) => Some((es.push(e), q)),
                None => None,
            },
            None => None,
        }
    }
}

/// Reads a field at `pos`.
pub open spec fn read_group(s: Seq<char>, pos: int) -> Option<(Group, int)> {
    match read_str(s, pos) {
        Some((name, p)) => match read_count(s, p) {
            Some((n, q)) => match read_entries(s, q, n) {
                Some((es, r)) => Some(((name, es), r)),
                None => None,
            },
            None => None,
        },
        None => None,
    }
}

/// Reads `count` fields from `pos` on.
pub open spec fn read_groups(s: Seq<char>, pos: int, count: nat) -> Option<(Seq<Group>, int)>
    decreases count,
{
    if count == 0 {
        Some((Seq::empty(), pos))
    } else {
        match read_groups(s, pos, (count - 1) as nat) {
            Some((gs, p)) => match read_group(s, p) {
                Some((g, q)) => Some((gs.push(g), q)),
                None => None,
            },
            None => None,
        }
    }
}

/// Reads a whole text: a count, that many fields, and nothing behind
/// them.
pub open spec fn read_text(s: Seq<char>) -> Option<Seq<Group>> {
    match read_count(s, 0) {
        Some((n, p)) => match read_groups(s, p, n) {
            Some((gs, q)) => if q == s.len() {
                Some(gs)
            } else {
                None
            },
            None => None,
        },
        None => None,
    }
}

/// A string that was read stands at `pos` as its text, and the position
/// given is the one behind that text.
pub proof fn lemma_read_str_sound(s: Seq<char>, pos: int)
    requires
        0 <= pos <= s.len(),
        read_str(s, pos) is Some,
    ensures
        ({
            let (v, end) = read_str(s, pos)->0;
            &&& occurs_at(s, pos, str_text(v))
            &&& end == pos + str_text(v).len()
        }),
{
    lemma_read_nat_sound(s, pos);
    let (n, p) = read_nat(s, pos)->0;
    let v = s.subrange(p + 1, p + 1 + n);
    assert(s.subrange(p, p + 1) =~= seq![':']);
    assert(occurs_at(s, p + 1, v));
    lemma_occurs_concat(s, pos, nat_text(n), seq![':']);
    lemma_occurs_concat(s, pos, nat_text(n) + seq![':'], v);
}

/// The text of a string, standing at `pos`, is read back as that string.
pub proof fn lemma_read_str_complete(s: Seq<char>, pos: int, v: Seq<char>)
    requires
        occurs_at(s, pos, str_text(v)),
    ensures
        read_str(s, pos) == Some((v, pos + str_text(v).len())),
{
    let t = nat_text(v.len());
    let p = pos + t.len();
    lemma_occurs_concat(s, pos, t + seq![':'], v);
    lemma_occurs_concat(s, pos, t, seq![':']);
    assert(s.subrange(p, p + 1)[0] == ':');
    assert(!is_digit(s[p]));
    lemma_read_nat_complete(s, pos, v.len());
}

/// A count that was read stands at `pos` as its text.
pub proof fn lemma_read_count_sound(s: Seq<char>, pos: int)
    requires
        0 <= pos <= s.len(),
        read_count(s, pos) is Some,
    ensures
        ({
            let (n, end) = read_count(s, pos)->0;
            &&& occurs_at(s, pos, count_text(n))
            &&& end == pos + count_text(n).len()
        }),
{
    lemma_read_nat_sound(s, pos);
    let (n, p) = read_nat(s, pos)->0;
    assert(s.subrange(p, p + 1) =~= seq![';']);
    lemma_occurs_concat(s, pos, nat_text(n), seq![';']);
}

/// The text of a count within the length of `s`, standing at `pos`, is
/// read back as that count.
pub proof fn lemma_read_count_complete(s: Seq<char>, pos: int, n: nat)
    requires
        occurs_at(s, pos, count_text(n)),
        n <= s.len(),
    ensures
        read_count(s, pos) == Some((n, pos + count_text(n).len())),
{
    let t = nat_text(n);
    let p = pos + t.len();
    lemma_occurs_concat(s, pos, t, seq![';']);
    assert(s.subrange(p, p + 1)[0] == ';');
    assert(!is_digit(s[p]));
    lemma_read_nat_complete(s, pos, n);
}

/// A failed rule that was read stands at `pos` as its text.
pub proof fn lemma_read_entry_sound(s: Seq<char>, pos: int)
    requires
        0 <= pos <= s.len(),
        read_entry(s, pos) is Some,
    ensures
        ({
            let (e, end) = read_entry(s, pos)->0;
            &&& occurs_at(s, pos, entry_text(e))
            &&& end == pos + entry_text(e).len()
        }),
{
    lemma_read_str_sound(s, pos);
    let (code, p) = read_str(s, pos)->0;
    if s[p] == '-' {
        assert(s.subrange(p, p + 1) =~= seq!['-']);
        lemma_occurs_concat(s, pos, str_text(code), seq!['-']);
    } else {
        assert(s.subrange(p, p + 1) =~= seq!['+']);
        lemma_occurs_concat(s, pos, str_text(code), seq!['+']);
        lemma_read_str_sound(s, p + 1);
        let (m, q) = read_str(s, p + 1)->0;
        lemma_occurs_concat(s, pos, str_text(code) + seq!['+'], str_text(m));
    }
}

/// The text of a failed rule, standing at `pos`, is read back as that
/// rule.
pub proof fn lemma_read_entry_complete(s: Seq<char>, pos: int, e: Entry)
    requires
        occurs_at(s, pos, entry_text(e)),
    ensures
        read_entry(s, pos) == Some((e, pos + entry_text(e).len())),
{
    let p = pos + str_text(e.0).len();
    match e.1 {
        None => {
            lemma_occurs_concat(s, pos, str_text(e.0), seq!['-']);
            lemma_read_str_complete(s, pos, e.0);
            assert(s.subrange(p, p + 1)[0] == '-');
        },
        Some(m) => {
            lemma_occurs_concat(s, pos, str_text(e.0) + seq!['+'], str_text(m));
            lemma_occurs_concat(s, pos, str_text(e.0), seq!['+']);
            lemma_read_str_complete(s, pos, e.0);
            assert(s.subrange(p, p + 1)[0] == '+');
            lemma_read_str_complete(s, p + 1, m);
        },
    }
}

/// Failed rules that were read stand at `pos` as their text, as many as
/// were asked for.
pub proof fn lemma_read_entries_sound(s: Seq<char>, pos: int, count: nat)
    requires
        0 <= pos <= s.len(),
        read_entries(s, pos, count) is Some,
    ensures
        ({
            let (es, end) = read_entries(s, pos, count)->0;
            &&& es.len() == count
            &&& occurs_at(s, pos, entries_text(es))
            &&& end == pos + entries_text(es).len()
        }),
    decreases count,
{
    if count == 0 {
        assert(s.subrange(pos, pos) =~= Seq::<char>::empty());
    } else {
        lemma_read_entries_sound(s, pos, (count - 1) as nat);
        let (head, p) = read_entries(s, pos, (count - 1) as nat)->0;
        lemma_read_entry_sound(s, p);
        let (e, q) = read_entry(s, p)->0;
        let es = head.push(e);
        assert(es.drop_last() =~= head);
        lemma_occurs_concat(s, pos, entries_text(head), entry_text(e));
    }
}

/// The text of failed rules, standing at `pos`, is read back as those
/// rules.
pub proof fn lemma_read_entries_complete(s: Seq<char>, pos: int, es: Seq<Entry>)
    requires
        occurs_at(s, pos, entries_text(es)),
    ensures
        read_entries(s, pos, es.len()) == Some((es, pos + entries_text(es).len())),
    decreases es.len(),
{
    if es.len() == 0 {
        assert(es =~= Seq::<Entry>::empty());
    } else {
        let head = es.drop_last();
        lemma_occurs_concat(s, pos, entries_text(head), entry_text(es.last()));
        lemma_read_entries_complete(s, pos, head);
        lemma_read_entry_complete(s, pos + entries_text(head).len(), es.last());
        assert(head.push(es.last()) =~= es);
    }
}

/// Where fewer rules cannot be read, more cannot be read either.
pub proof fn lemma_read_entries_stuck(s: Seq<char>, pos: int, k: nat, count: nat)
    requires
        k <= count,
        read_entries(s, pos, k) is None,
    ensures
        read_entries(s, pos, count) is None,
    decreases count,
{
    if k < count {
        lemma_read_entries_stuck(s, pos, k, (count - 1) as nat);
    }
}

/// Every rule takes room, so a text holds no more rules than characters.
pub proof fn lemma_entries_text_len(es: Seq<Entry>)
    ensures
        entries_text(es).len() >= es.len(),
    decreases es.len(),
{
    if es.len() > 0 {
        lemma_entries_text_len(es.drop_last());
    }
}

/// A field that was read stands at `pos` as its text.
pub proof fn lemma_read_group_sound(s: Seq<char>, pos: int)
    requires
        0 <= pos <= s.len(),
        read_group(s, pos) is Some,
    ensures
        ({
            let (g, end) = read_group(s, pos)->0;
            &&& occurs_at(s, pos, group_text(g))
            &&& end == pos + group_text(g).len()
        }),
{
    lemma_read_str_sound(s, pos);
    let (name, p) = read_str(s, pos)->0;
    lemma_read_count_sound(s, p);
    let (n, q) = read_count(s, p)->0;
    lemma_read_entries_sound(s, q, n);
    let (es, r) = read_entries(s, q, n)->0;
    lemma_occurs_concat(s, pos, str_text(name), count_text(n));
    lemma_occurs_concat(s, pos, str_text(name) + count_text(n), entries_text(es));
}

/// The text of a field, standing at `pos`, is read back as that field.
pub proof fn lemma_read_group_complete(s: Seq<char>, pos: int, g: Group)
    requires
        occurs_at(s, pos, group_text(g)),
    ensures
        read_group(s, pos) == Some((g, pos + group_text(g).len())),
{
    let n = g.1.len();
    lemma_occurs_concat(s, pos, str_text(g.0) + count_text(n), entries_text(g.1));
    lemma_occurs_concat(s, pos, str_text(g.0), count_text(n));
    lemma_read_str_complete(s, pos, g.0);
    let p = pos + str_text(g.0).len();
    lemma_entries_text_len(g.1);
    lemma_read_count_complete(s, p, n);
    lemma_read_entries_complete(s, p + count_text(n).len(), g.1);
}

/// Fields that were read stand at `pos` as their text, as many as were
/// asked for.
pub proof fn lemma_read_groups_sound(s: Seq<char>, pos: int, count: nat)
    requires
        0 <= pos <= s.len(),
        read_groups(s, pos, count) is Some,
    ensures
        ({
            let (gs, end) = read_groups(s, pos, count)->0;
            &&& gs.len() == count
            &&& occurs_at(s, pos, groups_text(gs))
            &&& end == pos + groups_text(gs).len()
        }),
    decreases count,
{
    if count == 0 {
        assert(s.subrange(pos, pos) =~= Seq::<char>::empty());
    } else {
        lemma_read_groups_sound(s, pos, (count - 1) as nat);
        let (head, p) = read_groups(s, pos, (count - 1) as nat)->0;
        lemma_read_group_sound(s, p);
        let (g, q) = read_group(s, p)->0;
        let gs = head.push(g);
        assert(gs.drop_last() =~= head);
        lemma_occurs_concat(s, pos, groups_text(head), group_text(g));
    }
}

/// The text of fields, standing at `pos`, is read back as those fields.
pub proof fn lemma_read_groups_complete(s: Seq<char>, pos: int, gs: Seq<Group>)
    requires
        occurs_at(s, pos, groups_text(gs)),
    ensures
        read_groups(s, pos, gs.len()) == Some((gs, pos + groups_text(gs).len())),
    decreases gs.len(),
{
    if gs.len() == 0 {
        assert(gs =~= Seq::<Group>::empty());
    } else {
        let head = gs.drop_last();
        lemma_occurs_concat(s, pos, groups_text(head), group_text(gs.last()));
        lemma_read_groups_complete(s, pos, head);
        lemma_read_group_complete(s, pos + groups_text(head).len(), gs.last());
        assert(head.push(gs.last()) =~= gs);
    }
}

/// Where fewer fields cannot be read, more cannot be read either.
pub proof fn lemma_read_groups_stuck(s: Seq<char>, pos: int, k: nat, count: nat)
    requires
        k <= count,
        read_groups(s, pos, k) is None,
    ensures
        read_groups(s, pos, count) is None,
    decreases count,
{
    if k < count {
        lemma_read_groups_stuck(s, pos, k, (count - 1) as nat);
    }
}

/// Every field takes room, so a text holds no more fields than
/// characters.
pub proof fn lemma_groups_text_len(gs: Seq<Group>)
    ensures
        groups_text(gs).len() >= gs.len(),
    decreases gs.len(),
{
    if gs.len() > 0 {
        lemma_groups_text_len(gs.drop_last());
    }
}

/// What the reader accepts is the text of what it gives.
pub proof fn lemma_read_text_sound(s: Seq<char>)
    requires
        read_text(s) is Some,
    ensures
        encode_spec(read_text(s)->0) == s,
{
    lemma_read_count_sound(s, 0);
    let (n, p) = read_count(s, 0)->0;
    lemma_read_groups_sound(s, p, n);
    let (gs, q) = read_groups(s, p, n)->0;
    lemma_occurs_concat(s, 0, count_text(n), groups_text(gs));
    assert(s.subrange(0, s.len() as int) =~= s);
}

/// The reader gives back what a text was made of.
pub proof fn lemma_read_text_complete(gs: Seq<Group>)
    ensures
        read_text(encode_spec(gs)) == Some(gs),
{
    let s = encode_spec(gs);
    assert(s.subrange(0, s.len() as int) =~= s);
    lemma_occurs_concat(s, 0, count_text(gs.len()), groups_text(gs));
    lemma_groups_text_len(gs);
    lemma_read_count_complete(s, 0, gs.len());
    lemma_read_groups_complete(s, count_text(gs.len()).len() as int, gs);
}

/// Two failures with the same text are the same failure.
pub proof fn lemma_encode_injective(a: Seq<Group>, b: Seq<Group>)
    requires
        encode_spec(a) == encode_spec(b),
    ensures
        a == b,
{
    lemma_read_text_complete(a);
    lemma_read_text_complete(b);
}

/// Appends the text of a string to `out`.
pub(crate) fn push_str(out: &mut String, s: &str)
    ensures
        final(out)@ == old(out)@ + str_text(s@),
{
    let n: usize = s.unicode_len();
    push_nat(out, n);
    out.push(':');
    out.append(s);
    assert(out@ =~= old(out)@ + str_text(s@));
}

/// Appends the text of a count to `out`.
pub(crate) fn push_count(out: &mut String, n: usize)
    ensures
        final(out)@ == old(out)@ + count_text(n as nat),
{
    push_nat(out, n);
    out.push(';');
    assert(out@ =~= old(out)@ + count_text(n as nat));
}

/// Appends the text of a failed rule to `out`.
pub(crate) fn push_entry(out: &mut String, m: &ModelValidationMessage)
    ensures
        final(out)@ == old(out)@ + entry_text(m@),
{
    push_str(out, m.code.as_str());
    match &m.message {
        None => {
            out.push('-');
        },
        Some(t) => {
            out.push('+');
            push_str(out, t.as_str());
        },
    }
    assert(out@ =~= old(out)@ + entry_text(m@));
}

/// Appends the text of a field to `out`.
pub(crate) fn push_group(out: &mut String, g: &FieldMessages)
    ensures
        final(out)@ == old(out)@ + group_text(g@),
{
    push_str(out, g.field.as_str());
    push_count(out, g.messages.len());
    let ghost start = out@;
    let ghost es = entries_view(g.messages@);
    let mut i: usize = 0;
    while i < g.messages.len()
        invariant
            i <= g.messages.len(),
            es == entries_view(g.messages@),
            out@ == start + entries_text(es.take(i as int)),
        decreases g.messages.len() - i,
    {
        push_entry(out, &g.messages[i]);
        proof {
            let next = es.take(i + 1);
            assert(next.drop_last() =~= es.take(i as int));
            assert(next.last() == g.messages@[i as int]@);
            assert(out@ =~= start + entries_text(next));
        }
        i = i + 1;
    }
    assert(es.take(g.messages.len() as int) =~= es);
    assert(out@ =~= old(out)@ + group_text(g@));
}

/// The text of the given fields.
pub(crate) fn encode_groups(groups: &Vec<FieldMessages>) -> (out: String)
    ensures
        out@ == encode_spec(groups_view(groups@)),
{
    let mut out = String::new();
    push_count(&mut out, groups.len());
    let ghost start = out@;
    let ghost gs = groups_view(groups@);
    let mut i: usize = 0;
    while i < groups.len()
        invariant
            i <= groups.len(),
            gs == groups_view(groups@),
            out@ == start + groups_text(gs.take(i as int)),
        decreases groups.len() - i,
    {
        push_group(&mut out, &groups[i]);
        proof {
            let next = gs.take(i + 1);
            assert(next.drop_last() =~= gs.take(i as int));
            assert(next.last() == groups@[i as int]@);
            assert(out@ =~= start + groups_text(next));
        }
        i = i + 1;
    }
    assert(gs.take(groups.len() as int) =~= gs);
    assert(out@ =~= encode_spec(gs));
    out
}

/// Reads a string at `pos`.
pub(crate) fn parse_str(cs: &Vec<char>, pos: usize) -> (r: Option<(String, usize)>)
    requires
        pos <= cs.len(),
    ensures
        match r {
            Some((v, end)) => read_str(cs@, pos as int) == Some((v@, end as int)) && end
                <= cs.len(),
            None => read_str(cs@, pos as int) is None,
        },
{
    match parse_nat(cs, pos) {
        None => None,
        Some((n, p)) => {
            proof {
                lemma_read_nat_sound(cs@, pos as int);
            }
            if p < cs.len() && cs[p] == ':' && n <= cs.len() - (p + 1) {
                Some((string_of(cs, p + 1, p + 1 + n), p + 1 + n))
            } else {
                None
            }
        },
    }
}

/// Reads a count at `pos`.
pub(crate) fn parse_count(cs: &Vec<char>, pos: usize) -> (r: Option<(usize, usize)>)
    requires
        pos <= cs.len(),
    ensures
        match r {
            Some((n, end)) => read_count(cs@, pos as int) == Some((n as nat, end as int)) && end
                <= cs.len(),
            None => read_count(cs@, pos as int) is None,
        },
{
    match parse_nat(cs, pos) {
        None => None,
        Some((n, p)) => {
            proof {
                lemma_read_nat_sound(cs@, pos as int);
            }
            if p < cs.len() && cs[p] == ';' {
                Some((n, p + 1))
            } else {
                None
            }
        },
    }
}

/// Reads a failed rule at `pos`.
pub(crate) fn parse_entry(cs: &Vec<char>, pos: usize) -> (r: Option<(ModelValidationMessage, usize)>)
    requires
        pos <= cs.len(),
    ensures
        match r {
            Some((m, end)) => read_entry(cs@, pos as int) == Some((m@, end as int)) && end
                <= cs.len(),
            None => read_entry(cs@, pos as int) is None,
        },
{
    match parse_str(cs, pos) {
        None => None,
        Some((code, p)) => {
            if p < cs.len() && cs[p] == '-' {
                Some((ModelValidationMessage { code, message: None }, p + 1))
            } else if p < cs.len() && cs[p] == '+' {
                match parse_str(cs, p + 1) {
                    None => None,
                    Some((text, q)) => Some(
                        (ModelValidationMessage { code, message: Some(text) }, q),
                    ),
                }
            } else {
                None
            }
        },
    }
}

/// Reads a field at `pos`.
pub(crate) fn parse_group(cs: &Vec<char>, pos: usize) -> (r: Option<(FieldMessages, usize)>)
    requires
        pos <= cs.len(),
    ensures
        match r {
            Some((g, end)) => read_group(cs@, pos as int) == Some((g@, end as int)) && end
                <= cs.len(),
            None => read_group(cs@, pos as int) is None,
        },
{
    let (field, p) = match parse_str(cs, pos) {
        None => {
            return None;
        },
        Some(found) => found,
    };
    let (count, start) = match parse_count(cs, p) {
        None => {
            return None;
        },
        Some(found) => found,
    };
    let mut messages: Vec<ModelValidationMessage> = Vec::new();
    let mut cur: usize = start;
    let mut i: usize = 0;
    assert(entries_view(messages@) =~= Seq::<Entry>::empty());
    while i < count
        invariant
            i <= count,
            start <= cs.len(),
            cur <= cs.len(),
            read_str(cs@, pos as int) == Some((field@, p as int)),
            read_count(cs@, p as int) == Some((count as nat, start as int)),
            read_entries(cs@, start as int, i as nat) == Some((entries_view(messages@), cur as int)),
        decreases count - i,
    {
        match parse_entry(cs, cur) {
            None => {
                proof {
                    lemma_read_entries_stuck(cs@, start as int, (i + 1) as nat, count as nat);
                }
                return None;
            },
            Some((m, next)) => {
                let ghost before = entries_view(messages@);
                messages.push(m);
                assert(entries_view(messages@) =~= before.push(m@));
                cur = next;
            },
        }
        i = i + 1;
    }
    Some((FieldMessages { field, messages }, cur))
}

/// Reads a whole text into its fields, in the order in which they stand
/// there.
pub(crate) fn parse_text(cs: &Vec<char>) -> (r: Option<Vec<FieldMessages>>)
    ensures
        match r {
            Some(groups) => read_text(cs@) == Some(groups_view(groups@)),
            None => read_text(cs@) is None,
        },
{
    let (count, start) = match parse_count(cs, 0) {
        None => {
            return None;
        },
        Some(found) => found,
    };
    let mut groups: Vec<FieldMessages> = Vec::new();
    let mut cur: usize = start;
    let mut i: usize = 0;
    assert(groups_view(groups@) =~= Seq::<Group>::empty());
    while i < count
        invariant
            i <= count,
            start <= cs.len(),
            cur <= cs.len(),
            read_count(cs@, 0) == Some((count as nat, start as int)),
            read_groups(cs@, start as int, i as nat) == Some((groups_view(groups@), cur as int)),
        decreases count - i,
    {
        match parse_group(cs, cur) {
            None => {
                proof {
                    lemma_read_groups_stuck(cs@, start as int, (i + 1) as nat, count as nat);
                }
                return None;
            },
            Some((g, next)) => {
                let ghost before = groups_view(groups@);
                groups.push(g);
                assert(groups_view(groups@) =~= before.push(g@));
                cur = next;
            },
        }
        i = i + 1;
    }
    if cur == cs.len() {
        Some(groups)
    } else {
        None
    }
}

} // verus!
