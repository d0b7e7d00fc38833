//! Mathematical model of query strings: fields, pairs, escaping and the text renderings.

use vstd::prelude::*;
use vstd::utf8::encode_utf8;

verus! {

/// An ordered list of key/value pairs, duplicates allowed.
pub type PairList = Seq<(Seq<char>, Seq<char>)>;

/// The fields of a raw query string: its text cut at every `&`.
/// There is always at least one field; an empty text is one empty field.
pub open spec fn split_fields(s: Seq<char>) -> Seq<Seq<char>>
    decreases s.len(),
{
    if s.len() == 0 {
        seq![Seq::empty()]
    } else {
        let prev = split_fields(s.drop_last());
        if s.last() == '&' {
            prev.push(Seq::empty())
        } else {
            prev.update(prev.len() - 1, prev.last().push(s.last()))
        }
    }
}

/// Fields joined back together with `&` between neighbours.
pub open spec fn join_fields(fs: Seq<Seq<char>>) -> Seq<char>
    decreases fs.len(),
{
    if fs.len() <= 1 {
        if fs.len() == 0 { Seq::empty() } else { fs[0] }
    } else {
        join_fields(fs.drop_last()) + seq!['&'] + fs.last()
    }
}

/// Position of the first `=` in a field, or the field's length where it holds none.
pub open spec fn eq_index(f: Seq<char>) -> int
    decreases f.len(),
{
    if f.len() == 0 {
        0
    } else {
        let j = eq_index(f.drop_last());
        if j < f.len() - 1 {
            j
        } else if f.last() == '=' {
            f.len() - 1
        } else {
            f.len() as int
        }
    }
}

/// The key of a field: everything before its first `=`.
pub open spec fn field_key(f: Seq<char>) -> Seq<char> {
    f.take(eq_index(f))
}

/// The value of a field: everything after its first `=`, further `=` included; empty without `=`.
pub open spec fn field_value(f: Seq<char>) -> Seq<char> {
    if eq_index(f) < f.len() {
        f.skip(eq_index(f) + 1)
    } else {
        Seq::empty()
    }
}

/// The key/value pair that a field denotes.
pub open spec fn field_pair(f: Seq<char>) -> (Seq<char>, Seq<char>) {
    (field_key(f), field_value(f))
}

/// The pairs that a raw query string denotes, one per field, in order.
pub open spec fn parse_pairs(s: Seq<char>) -> PairList {
    split_fields(s).map_values(|f: Seq<char>| field_pair(f))
}

/// Bytes that escaping leaves as they are: ASCII letters and digits and `* - . _ ' ~ ! ( )`.
pub open spec fn is_unreserved(b: u8) -> bool {
    ||| 0x30 <= b <= 0x39
    ||| 0x41 <= b <= 0x5a
    ||| 0x61 <= b <= 0x7a
    ||| b == 0x2a
    ||| b == 0x2d
    ||| b == 0x2e
    ||| b == 0x5f
    ||| b == 0x27
    ||| b == 0x7e
    ||| b == 0x21
    ||| b == 0x28
    ||| b == 0x29
}

/// The ASCII code of an upper-case hexadecimal digit; 127 for a number over 15.
pub open spec fn hex_digit(n: u8) -> u8 {
    if n < 10 {
        (0x30 + n) as u8
    } else if n < 16 {
        (0x41 + n - 10) as u8
    } else {
        127
    }
}

/// One byte escaped: itself when unreserved, else `%` and two upper-case hex digits.
pub open spec fn escape_byte(b: u8) -> Seq<char> {
    if is_unreserved(b) {
        seq![b as char]
    } else {
        seq!['%', hex_digit(b / 16) as char, hex_digit(b % 16) as char]
    }
}

pub open spec fn escape_bytes(bs: Seq<u8>) -> Seq<char> {
    bs.map_values(|b: u8| escape_byte(b)).flatten()
}

/// A text percent-escaped byte by byte over its UTF-8 encoding.
pub open spec fn escaped(s: Seq<char>) -> Seq<char> {
    escape_bytes(encode_utf8(s))
}

/// One pair in query-string form: `key=value&`, or `key&` where the value is empty.
pub open spec fn render_pair(p: (Seq<char>, Seq<char>)) -> Seq<char> {
    if p.1.len() == 0 {
        escaped(p.0) + seq!['&']
    } else {
        escaped(p.0) + seq!['='] + escaped(p.1) + seq!['&']
    }
}

/// The query-string form of a pair list: each pair rendered, in order.
pub open spec fn stringify_pairs(ps: PairList) -> Seq<char> {
    ps.map_values(|p: (Seq<char>, Seq<char>)| render_pair(p)).flatten()
}

/// One pair as a JSON member, quoted as it stands: `"key":"value"`.
pub open spec fn json_member(p: (Seq<char>, Seq<char>)) -> Seq<char> {
    seq!['"'] + p.0 + seq!['"', ':', '"'] + p.1 + seq!['"']
}

/// The members of all pairs, separated by commas.
pub open spec fn json_members(ps: PairList) -> Seq<char>
    decreases ps.len(),
{
    if ps.len() <= 1 {
        if ps.len() == 0 { Seq::empty() } else { json_member(ps[0]) }
    } else {
        json_members(ps.drop_last()) + seq![','] + json_member(ps.last())
    }
}

/// The JSON-style object text of a pair list.
pub open spec fn json_text(ps: PairList) -> Seq<char> {
    seq!['{'] + json_members(ps) + seq!['}']
}

/// The value of the first pair whose key is `k`.
pub open spec fn lookup(ps: PairList, k: Seq<char>) -> Option<Seq<char>>
    decreases ps.len(),
{
    if ps.len() == 0 {
        None
    } else if ps[0].0 == k {
        Some(ps[0].1)
    } else {
        lookup(ps.drop_first(), k)
    }
}

/// Every pair whose key is `old` gets the key `new`.
pub open spec fn rekey(ps: PairList, old: Seq<char>, new: Seq<char>) -> PairList {
    ps.map_values(|p: (Seq<char>, Seq<char>)| if p.0 == old { (new, p.1) } else { p })
}

/// Every pair whose value is `old` gets the value `new`.
pub open spec fn revalue(ps: PairList, old: Seq<char>, new: Seq<char>) -> PairList {
    ps.map_values(|p: (Seq<char>, Seq<char>)| if p.1 == old { (p.0, new) } else { p })
}

/// The substitutions `olds[i] -> news[i]` on keys, applied one after another.
pub open spec fn rekey_all(ps: PairList, olds: Seq<Seq<char>>, news: Seq<Seq<char>>) -> PairList
    decreases olds.len(),
{
    if olds.len() == 0 {
        ps
    } else {
        rekey(rekey_all(ps, olds.drop_last(), news.drop_last()), olds.last(), news[olds.len() - 1])
    }
}

/// The substitutions `olds[i] -> news[i]` on values, applied one after another.
pub open spec fn revalue_all(ps: PairList, olds: Seq<Seq<char>>, news: Seq<Seq<char>>) -> PairList
    decreases olds.len(),
{
    if olds.len() == 0 {
        ps
    } else {
        revalue(revalue_all(ps, olds.drop_last(), news.drop_last()), olds.last(), news[olds.len() - 1])
    }
}

/// Escaping one more byte appends that byte's escape.
pub proof fn lemma_escape_bytes_push(bs: Seq<u8>, b: u8)
    ensures
        escape_bytes(bs.push(b)) == escape_bytes(bs) + escape_byte(b),
{
    let f = |x: u8| escape_byte(x);
    bs.lemma_push_map_commute(f, b);
    bs.map_values(f).lemma_flatten_push(escape_byte(b));
}

/// Rendering one more pair appends that pair's rendering.
pub proof fn lemma_stringify_push(ps: PairList, p: (Seq<char>, Seq<char>))
    ensures
        stringify_pairs(ps.push(p)) == stringify_pairs(ps) + render_pair(p),
{
    let f = |x: (Seq<char>, Seq<char>)| render_pair(x);
    ps.lemma_push_map_commute(f, p);
    ps.map_values(f).lemma_flatten_push(render_pair(p));
}

/// A raw query string always has at least one field.
pub proof fn lemma_split_fields_len(s: Seq<char>)
    ensures
        split_fields(s).len() >= 1,
    decreases s.len(),
{
    if s.len() > 0 {
        lemma_split_fields_len(s.drop_last());
    }
}

/// The first `=` of a field lies within it, and no `=` comes before it.
pub proof fn lemma_eq_index(f: Seq<char>)
    ensures
        0 <= eq_index(f) <= f.len(),
        eq_index(f) < f.len() ==> f[eq_index(f)] == '=',
        forall|j: int| 0 <= j < eq_index(f) ==> f[j] != '=',
    decreases f.len(),
{
    if f.len() > 0 {
        let g = f.drop_last();
        lemma_eq_index(g);
        assert forall|j: int| 0 <= j < eq_index(f) implies f[j] != '=' by {
            if j < g.len() {
                assert(f[j] == g[j]);
            }
        }
    }
}

/// How one more character changes the fields of a text.
pub proof fn lemma_split_fields_push(s: Seq<char>, c: char)
    ensures
        c == '&' ==> split_fields(s.push(c)) == split_fields(s).push(Seq::empty()),
        c != '&' ==> split_fields(s.push(c)) == split_fields(s).update(
            split_fields(s).len() - 1,
            split_fields(s).last().push(c),
        ),
{
    assert(s.push(c).drop_last() =~= s);
}

/// How one more character changes the key and the value of a field.
pub proof fn lemma_field_push(f: Seq<char>, c: char)
    ensures
        eq_index(f) < f.len() ==> field_key(f.push(c)) == field_key(f) && field_value(f.push(c))
            == field_value(f).push(c) && eq_index(f.push(c)) < f.push(c).len(),
        eq_index(f) == f.len() && c == '=' ==> field_key(f.push(c)) == field_key(f)
            && field_value(f.push(c)) == Seq::<char>::empty() && eq_index(f.push(c)) < f.push(
            c,
        ).len(),
        eq_index(f) == f.len() && c != '=' ==> field_key(f.push(c)) == field_key(f).push(c)
            && field_value(f.push(c)) == Seq::<char>::empty() && eq_index(f.push(c)) == f.push(
            c,
        ).len(),
{
    lemma_eq_index(f);
    let g = f.push(c);
    assert(g.drop_last() =~= f);
    let j = eq_index(f);
    if j < f.len() {
        assert(g.take(j) =~= f.take(j));
        assert(g.skip(j + 1) =~= f.skip(j + 1).push(c));
    } else if c == '=' {
        assert(g.take(j) =~= f.take(j));
        assert(g.skip(j + 1) =~= Seq::<char>::empty());
    } else {
        assert(g.take(g.len() as int) =~= f.take(j).push(c));
    }
}

/// Adding one more member: a comma, then the member, unless the list was empty.
pub proof fn lemma_json_members_push(ps: PairList, p: (Seq<char>, Seq<char>))
    ensures
        ps.len() == 0 ==> json_members(ps.push(p)) == json_member(p),
        ps.len() > 0 ==> json_members(ps.push(p)) == json_members(ps) + seq![','] + json_member(
            p,
        ),
{
    assert(ps.push(p).drop_last() =~= ps);
}

/// The batch key substitution over one more substitution.
pub proof fn lemma_rekey_all_take(ps: PairList, olds: Seq<Seq<char>>, news: Seq<Seq<char>>, j: int)
    requires
        0 <= j < olds.len(),
        olds.len() == news.len(),
    ensures
        rekey_all(ps, olds.take(j + 1), news.take(j + 1)) == rekey(
            rekey_all(ps, olds.take(j), news.take(j)),
            olds[j],
            news[j],
        ),
{
    assert(olds.take(j + 1).drop_last() =~= olds.take(j));
    assert(news.take(j + 1).drop_last() =~= news.take(j));
}

/// The batch value substitution over one more substitution.
pub proof fn lemma_revalue_all_take(
    ps: PairList,
    olds: Seq<Seq<char>>,
    news: Seq<Seq<char>>,
    j: int,
)
    requires
        0 <= j < olds.len(),
        olds.len() == news.len(),
    ensures
        revalue_all(ps, olds.take(j + 1), news.take(j + 1)) == revalue(
            revalue_all(ps, olds.take(j), news.take(j)),
            olds[j],
            news[j],
        ),
{
    assert(olds.take(j + 1).drop_last() =~= olds.take(j));
    assert(news.take(j + 1).drop_last() =~= news.take(j));
}

} // verus!
