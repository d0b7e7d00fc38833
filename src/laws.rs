//! Laws of the model: what parsing, escaping, rendering and lookup guarantee for all inputs.

use vstd::prelude::*;
use vstd::seq_lib::lemma_flatten_concat;

use crate::model::{
    eq_index, escape_byte, escape_bytes, escaped, field_key, field_pair, field_value, hex_digit,
    is_unreserved, join_fields, lemma_eq_index, lemma_escape_bytes_push, lemma_split_fields_len,
    lemma_stringify_push, lookup, parse_pairs, render_pair, split_fields, stringify_pairs,
    PairList,
};

verus! {

/// The query-string form holds each pair's rendering in order: everything rendered before
/// pair `i`, then pair `i` itself, then everything after it.
pub proof fn law_stringify_in_order(ps: PairList, i: int)
    requires
        0 <= i < ps.len(),
    ensures
        stringify_pairs(ps) == stringify_pairs(ps.take(i)) + render_pair(ps[i])
            + stringify_pairs(ps.skip(i + 1)),
{
    let f = |p: (Seq<char>, Seq<char>)| render_pair(p);
    let a = ps.take(i);
    let b = ps.skip(i + 1);
    assert(ps =~= a + seq![ps[i]] + b);
    assert(ps.map_values(f) =~= a.map_values(f) + seq![ps[i]].map_values(f) + b.map_values(f));
    lemma_flatten_concat(a.map_values(f) + seq![ps[i]].map_values(f), b.map_values(f));
    lemma_flatten_concat(a.map_values(f), seq![ps[i]].map_values(f));
    seq![ps[i]].map_values(f).lemma_flatten_singleton();
}

/// A non-empty query-string form ends with `&`, and so does each pair's rendering.
pub proof fn law_stringify_trailing_separator(ps: PairList)
    requires
        ps.len() > 0,
    ensures
        stringify_pairs(ps).len() > 0,
        stringify_pairs(ps).last() == '&',
{
    lemma_stringify_push(ps.drop_last(), ps.last());
    assert(ps.drop_last().push(ps.last()) =~= ps);
}

/// An escaped text holds neither `&` nor `=`, so the separators of the query-string form are
/// exactly the ones that the rendering puts there.
pub proof fn law_escaped_has_no_separators(s: Seq<char>)
    ensures
        forall|j: int| 0 <= j < escaped(s).len() ==> escaped(s)[j] != '&' && escaped(s)[j] != '=',
{
    lemma_escape_bytes_no_separators(vstd::utf8::encode_utf8(s));
}

proof fn lemma_escape_byte_no_separators(b: u8)
    ensures
        forall|j: int|
            0 <= j < escape_byte(b).len() ==> escape_byte(b)[j] != '&' && escape_byte(b)[j] != '=',
{
    let h = hex_digit(b / 16);
    let l = hex_digit(b % 16);
    assert(h != 0x26 && h != 0x3d && l != 0x26 && l != 0x3d);
    if is_unreserved(b) {
        assert(b != 0x26 && b != 0x3d);
    }
}

proof fn lemma_escape_bytes_no_separators(bs: Seq<u8>)
    ensures
        forall|j: int|
            0 <= j < escape_bytes(bs).len() ==> escape_bytes(bs)[j] != '&' && escape_bytes(bs)[j]
                != '=',
    decreases bs.len(),
{
    if bs.len() == 0 {
        assert(escape_bytes(bs) =~= Seq::<char>::empty());
    } else {
        let init = bs.drop_last();
        lemma_escape_bytes_no_separators(init);
        lemma_escape_byte_no_separators(bs.last());
        lemma_escape_bytes_push(init, bs.last());
        assert(init.push(bs.last()) =~= bs);
    }
}

/// Escaping leaves a run of unreserved bytes (ASCII letters and digits and
/// `* - . _ ' ~ ! ( )`) as it is, one character per byte.
pub proof fn law_unreserved_bytes_kept(bs: Seq<u8>)
    requires
        forall|j: int| 0 <= j < bs.len() ==> is_unreserved(bs[j]),
    ensures
        escape_bytes(bs) == bs.map_values(|b: u8| b as char),
    decreases bs.len(),
{
    if bs.len() == 0 {
        assert(escape_bytes(bs) =~= Seq::<char>::empty());
        assert(bs.map_values(|b: u8| b as char) =~= Seq::<char>::empty());
    } else {
        let init = bs.drop_last();
        law_unreserved_bytes_kept(init);
        lemma_escape_bytes_push(init, bs.last());
        assert(init.push(bs.last()) =~= bs);
        assert(bs.map_values(|b: u8| b as char) =~= init.map_values(|b: u8| b as char).push(
            bs.last() as char,
        ));
    }
}

/// Every other byte becomes `%` and its two upper-case hexadecimal digits, high nibble first.
pub proof fn law_reserved_byte_escaped(b: u8)
    requires
        !is_unreserved(b),
    ensures
        escape_bytes(seq![b]) == seq!['%', hex_digit(b / 16) as char, hex_digit(b % 16) as char],
        0x30 <= hex_digit(b / 16) <= 0x39 || 0x41 <= hex_digit(b / 16) <= 0x46,
        0x30 <= hex_digit(b % 16) <= 0x39 || 0x41 <= hex_digit(b % 16) <= 0x46,
{
    lemma_escape_bytes_push(Seq::empty(), b);
    assert(Seq::<u8>::empty().push(b) =~= seq![b]);
    assert(escape_bytes(Seq::<u8>::empty()) =~= Seq::<char>::empty());
}

proof fn lemma_split_fields_rejoin(s: Seq<char>)
    ensures
        join_fields(split_fields(s)) == s,
        forall|i: int, j: int|
            0 <= i < split_fields(s).len() && 0 <= j < split_fields(s)[i].len()
                ==> split_fields(s)[i][j] != '&',
    decreases s.len(),
{
    if s.len() > 0 {
        let init = s.drop_last();
        let c = s.last();
        let prev = split_fields(init);
        lemma_split_fields_rejoin(init);
        lemma_split_fields_len(init);
        let fs = split_fields(s);
        if c == '&' {
            assert(fs.drop_last() =~= prev);
            if prev.len() == 0 {
            } else {
                assert(join_fields(fs) =~= join_fields(prev) + seq!['&'] + Seq::<char>::empty());
            }
            assert(join_fields(fs) =~= s);
        } else {
            assert(fs.drop_last() =~= prev.drop_last());
            if prev.len() == 1 {
                assert(join_fields(prev) == prev[0]);
                assert(join_fields(fs) =~= s);
            } else {
                assert(join_fields(fs) == join_fields(prev.drop_last()) + seq!['&'] + fs.last());
                assert(join_fields(prev) == join_fields(prev.drop_last()) + seq!['&'] + prev.last());
                assert(fs.last() == prev.last().push(c));
                assert(s =~= init.push(c));
                assert(join_fields(fs) =~= join_fields(prev).push(c));
            }
            assert forall|i: int, j: int|
                0 <= i < fs.len() && 0 <= j < fs[i].len() implies fs[i][j] != '&' by {
                if i == fs.len() - 1 && j == fs[i].len() - 1 {
                } else if i == fs.len() - 1 {
                    assert(fs[i][j] == prev[i][j]);
                }
            }
        }
    }
}

/// Parsing keeps the text: its fields joined with `&` give the input back, no field holds an
/// `&`, and each pair joined with `=` gives its field back when the field held an `=`. The
/// split is at the first `=`: a key never holds one, and a field without `=` is all key
/// with an empty value.
pub proof fn law_parse_rejoin(s: Seq<char>)
    ensures
        join_fields(split_fields(s)) == s,
        parse_pairs(s).len() == split_fields(s).len(),
        forall|i: int, j: int|
            0 <= i < split_fields(s).len() && 0 <= j < split_fields(s)[i].len()
                ==> split_fields(s)[i][j] != '&',
        forall|i: int|
            0 <= i < split_fields(s).len() ==> {
                let f = #[trigger] split_fields(s)[i];
                let p = parse_pairs(s)[i];
                &&& !p.0.contains('=')
                &&& f.contains('=') ==> p.0 + seq!['='] + p.1 == f
                &&& !f.contains('=') ==> p.0 == f && p.1.len() == 0
            },
{
    lemma_split_fields_rejoin(s);
    let fs = split_fields(s);
    assert forall|i: int| 0 <= i < fs.len() implies {
        let f = #[trigger] fs[i];
        let p = parse_pairs(s)[i];
        &&& !p.0.contains('=')
        &&& f.contains('=') ==> p.0 + seq!['='] + p.1 == f
        &&& !f.contains('=') ==> p.0 == f && p.1.len() == 0
    } by {
        let f = fs[i];
        lemma_eq_index(f);
        let k = eq_index(f);
        assert(parse_pairs(s)[i] == field_pair(f));
        if k < f.len() {
            assert(f.contains('='));
            assert(field_key(f) + seq!['='] + field_value(f) =~= f);
        } else {
            assert(field_key(f) =~= f);
        }
    }
}

proof fn lemma_lookup(ps: PairList, k: Seq<char>)
    ensures
        match lookup(ps, k) {
            Some(v) => exists|i: int|
                0 <= i < ps.len() && (#[trigger] ps[i]).0 == k && ps[i].1 == v && forall|j: int|
                    0 <= j < i ==> ps[j].0 != k,
            None => forall|i: int| 0 <= i < ps.len() ==> (#[trigger] ps[i]).0 != k,
        },
    decreases ps.len(),
{
    if ps.len() > 0 {
        let rest = ps.drop_first();
        lemma_lookup(rest, k);
        if ps[0].0 == k {
            assert(ps[0].0 == k);
        } else {
            match lookup(rest, k) {
                Some(v) => {
                    let i = choose|i: int|
                        0 <= i < rest.len() && (#[trigger] rest[i]).0 == k && rest[i].1 == v
                            && forall|j: int| 0 <= j < i ==> rest[j].0 != k;
                    assert(ps[i + 1] == rest[i]);
                    assert forall|j: int| 0 <= j < i + 1 implies ps[j].0 != k by {
                        if j > 0 {
                            assert(ps[j] == rest[j - 1]);
                        }
                    }
                },
                None => {
                    assert forall|i: int| 0 <= i < ps.len() implies (#[trigger] ps[i]).0 != k by {
                        if i > 0 {
                            assert(ps[i] == rest[i - 1]);
                        }
                    }
                },
            }
        }
    }
}

/// Looking a key up in a parsed query string finds the value of the first field whose key
/// equals it, and nothing when no field's key does.
pub proof fn law_lookup_first_field(s: Seq<char>, k: Seq<char>)
    ensures
        match lookup(parse_pairs(s), k) {
            Some(v) => exists|i: int|
                0 <= i < split_fields(s).len() && field_key(#[trigger] split_fields(s)[i]) == k
                    && field_value(split_fields(s)[i]) == v && forall|j: int|
                    0 <= j < i ==> field_key(split_fields(s)[j]) != k,
            None => forall|i: int|
                0 <= i < split_fields(s).len() ==> field_key(#[trigger] split_fields(s)[i]) != k,
        },
{
    let ps = parse_pairs(s);
    let fs = split_fields(s);
    lemma_lookup(ps, k);
    assert forall|i: int| 0 <= i < fs.len() implies #[trigger] ps[i] == field_pair(fs[i]) by {}
    match lookup(ps, k) {
        Some(v) => {
            let i = choose|i: int|
                0 <= i < ps.len() && (#[trigger] ps[i]).0 == k && ps[i].1 == v && forall|j: int|
                    0 <= j < i ==> ps[j].0 != k;
            assert(field_key(fs[i]) == k);
            assert forall|j: int| 0 <= j < i implies field_key(fs[j]) != k by {
                assert(ps[j] == field_pair(fs[j]));
            }
        },
        None => {
            assert forall|i: int| 0 <= i < fs.len() implies field_key(#[trigger] fs[i]) != k by {
                assert(ps[i] == field_pair(fs[i]));
            }
        },
    }
}

} // verus!
