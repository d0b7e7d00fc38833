//! The `QueryParams` type: an ordered list of key/value pairs and its operations.

use vstd::prelude::*;
use vstd::std_specs::iter::IteratorSpec;
use vstd::utf8::{decode_utf8, encode_utf8};

use crate::model::{
    eq_index, escape_bytes, escaped, field_key, field_pair, field_value, hex_digit, is_unreserved,
    json_members, json_text, lemma_eq_index, lemma_escape_bytes_push, lemma_field_push,
    lemma_json_members_push, lemma_rekey_all_take, lemma_revalue_all_take, lemma_split_fields_len,
    lemma_split_fields_push, lemma_stringify_push, lookup, parse_pairs, rekey, rekey_all, revalue,
    revalue_all, split_fields, stringify_pairs, PairList,
};

verus! {

/// Relies on String::push: appends one character to the string.
#[verifier::external_body]
fn push_char(s: &mut String, c: char)
    ensures
        final(s)@ == old(s)@.push(c),
{
    s.push(c)
}

/// Relies on String::push_str: appends a string slice to the string.
#[verifier::external_body]
fn push_text(s: &mut String, t: &str)
    ensures
        final(s)@ == old(s)@ + t@,
{
    s.push_str(t)
}

/// Why a batch rewrite was refused.
#[derive(Debug, Clone, Copy, PartialEq, Eq, Structural)]
pub enum QueryError {
    /// The lists of old and new texts differ in length.
    InvalidArgument,
}

/// The text of each string slice.
pub open spec fn texts_view(v: Seq<&str>) -> Seq<Seq<char>> {
    v.map_values(|s: &str| s@)
}

/// Whether two texts are equal, compared byte by byte.
fn same_text(a: &str, b: &str) -> (r: bool)
    ensures
        r == (a@ == b@),
{
    let x = a.as_bytes();
    let y = b.as_bytes();
    proof {
        broadcast use vstd::utf8::encode_utf8_decode_utf8, vstd::utf8::encode_utf8_valid_utf8;
        assert(x@ == encode_utf8(a@));
        assert(y@ == encode_utf8(b@));
        assert(decode_utf8(encode_utf8(a@)) == a@);
        assert(decode_utf8(encode_utf8(b@)) == b@);
    }
    if x.len() != y.len() {
        return false;
    }
    let n = x.len();
    let mut i: usize = 0;
    while i < n
        invariant
            n == x@.len(),
            n == y@.len(),
            x@ == encode_utf8(a@),
            y@ == encode_utf8(b@),
            0 <= i <= n,
            forall|j: int| 0 <= j < i ==> x@[j] == y@[j],
        decreases n - i,
    {
        if x[i] != y[i] {
            proof {
                assert(x@[i as int] != y@[i as int]);
                assert(x@ != y@);
            }
            return false;
        }
        i = i + 1;
    }
    proof {
        assert(x@ =~= y@);
    }
    true
}

/// An ordered list of query parameters; keys may repeat and order is kept.
#[derive(Debug, Clone)]
pub struct QueryParams {
    inner: Vec<(String, String)>,
}

/// The text of each owned pair.
pub open spec fn pairs_view(v: Seq<(String, String)>) -> PairList {
    v.map_values(|p: (String, String)| (p.0@, p.1@))
}

impl View for QueryParams {
    type V = PairList;

    closed spec fn view(&self) -> PairList {
        pairs_view(self.inner@)
    }
}

impl QueryParams {
    /// Parses a raw query string (no leading `?`): fields are cut at every `&`, and each
    /// field at its first `=` into key and value; a field without `=` has an empty value.
    /// Nothing is trimmed or decoded.
    pub fn from_str(s: &str) -> (r: Self)
        ensures
            r@ == parse_pairs(s@),
    {
        let mut inner: Vec<(String, String)> = Vec::new();
        let mut key = String::new();
        let mut val = String::new();
        let mut in_value = false;
        let mut it = s.chars();
        let ghost mut i: int = 0;
        proof {
            lemma_split_fields_len(s@.take(0));
            assert(s@.take(0) =~= Seq::<char>::empty());
            assert(Seq::<char>::empty().take(0) =~= Seq::<char>::empty());
        }
        loop
            invariant
                0 <= i <= s@.len(),
                it.remaining() == s@.skip(i),
                split_fields(s@.take(i)).len() >= 1,
                pairs_view(inner@) == split_fields(s@.take(i)).drop_last().map_values(
                    |f: Seq<char>| field_pair(f),
                ),
                key@ == field_key(split_fields(s@.take(i)).last()),
                val@ == field_value(split_fields(s@.take(i)).last()),
                in_value == (eq_index(split_fields(s@.take(i)).last()) < split_fields(
                    s@.take(i),
                ).last().len()),
            ensures
                i == s@.len(),
                split_fields(s@.take(i)).len() >= 1,
                pairs_view(inner@) == split_fields(s@.take(i)).drop_last().map_values(
                    |f: Seq<char>| field_pair(f),
                ),
                key@ == field_key(split_fields(s@.take(i)).last()),
                val@ == field_value(split_fields(s@.take(i)).last()),
            decreases s@.len() - i,
        {
            match it.next() {
                Some(c) => {
                    let ghost p = s@.take(i);
                    let ghost fs = split_fields(p);
                    proof {
                        assert(s@.take(i + 1) =~= p.push(c));
                        lemma_split_fields_push(p, c);
                        lemma_eq_index(fs.last());
                    }
                    if c == '&' {
                        let done = (key, val);
                        inner.push(done);
                        key = String::new();
                        val = String::new();
                        in_value = false;
                        proof {
                            let g = |f: Seq<char>| field_pair(f);
                            let q = |p: (String, String)| (p.0@, p.1@);
                            fs.drop_last().lemma_push_map_commute(g, fs.last());
                            assert(fs.drop_last().push(fs.last()) =~= fs);
                            assert(split_fields(p.push(c)).drop_last() =~= fs);
                            assert(split_fields(p.push(c)).last() =~= Seq::<char>::empty());
                            assert(pairs_view(inner@) =~= fs.map_values(g));
                            assert(Seq::<char>::empty().take(0) =~= Seq::<char>::empty());
                        }
                    } else {
                        proof {
                            lemma_field_push(fs.last(), c);
                            assert(split_fields(p.push(c)).drop_last() =~= fs.drop_last());
                            assert(split_fields(p.push(c)).last() == fs.last().push(c));
                        }
                        if in_value {
                            push_char(&mut val, c);
                        } else if c == '=' {
                            in_value = true;
                        } else {
                            push_char(&mut key, c);
                        }
                    }
                    proof {
                        i = i + 1;
                    }
                }
                None => {
                    break;
                }
            }
        }
        proof {
            assert(s@.take(i) =~= s@);
        }
        let ghost fs = split_fields(s@);
        inner.push((key, val));
        proof {
            let g = |f: Seq<char>| field_pair(f);
            fs.drop_last().lemma_push_map_commute(g, fs.last());
            assert(fs.drop_last().push(fs.last()) =~= fs);
            assert(pairs_view(inner@) =~= fs.map_values(g));
        }
        QueryParams { inner }
    }

    /// Wraps the given pairs, in their order, as they are.
    pub fn from_vec(vec: Vec<(&str, &str)>) -> (r: Self)
        ensures
            r@ == vec@.map_values(|p: (&str, &str)| (p.0@, p.1@)),
    {
        let mut inner: Vec<(String, String)> = Vec::new();
        let n = vec.len();
        let mut i: usize = 0;
        while i < n
            invariant
                n == vec@.len(),
                0 <= i <= n,
                inner@.len() == i,
                forall|j: int|
                    0 <= j < i ==> #[trigger] inner@[j].0@ == vec@[j].0@ && inner@[j].1@
                        == vec@[j].1@,
            decreases n - i,
        {
            let k: String = vec[i].0.to_owned();
            let v: String = vec[i].1.to_owned();
            inner.push((k, v));
            i = i + 1;
        }
        let r = QueryParams { inner };
        proof {
            assert(r@ =~= vec@.map_values(|p: (&str, &str)| (p.0@, p.1@)));
        }
        r
    }

    /// The value of the first pair whose key is `key`; `None` when no key matches.
    pub fn value(&self, key: &str) -> (r: Option<&str>)
        ensures
            match r {
                Some(v) => lookup(self@, key@) == Some(v@),
                None => lookup(self@, key@) is None,
            },
    {
        let n = self.inner.len();
        let mut i: usize = 0;
        proof {
            assert(self@.skip(0) =~= self@);
        }
        while i < n
            invariant
                n == self.inner@.len(),
                0 <= i <= n,
                lookup(self@, key@) == lookup(self@.skip(i as int), key@),
            decreases n - i,
        {
            proof {
                assert(self@.skip(i as int).drop_first() =~= self@.skip(i + 1));
            }
            if same_text(self.inner[i].0.as_str(), key) {
                return Some(self.inner[i].1.as_str());
            }
            i = i + 1;
        }
        None
    }

    /// The JSON-style object text: `{"key":"value",...}` in order, keys and values quoted as
    /// they stand, with no escaping of quotes inside them.
    pub fn json(&self) -> (r: String)
        ensures
            r@ == json_text(self@),
    {
        let mut out = String::new();
        push_char(&mut out, '{');
        let n = self.inner.len();
        let mut i: usize = 0;
        while i < n
            invariant
                n == self.inner@.len(),
                0 <= i <= n,
                out@ == seq!['{'] + json_members(self@.take(i as int)),
            decreases n - i,
        {
            if i > 0 {
                push_char(&mut out, ',');
            }
            push_char(&mut out, '"');
            push_text(&mut out, self.inner[i].0.as_str());
            push_char(&mut out, '"');
            push_char(&mut out, ':');
            push_char(&mut out, '"');
            push_text(&mut out, self.inner[i].1.as_str());
            push_char(&mut out, '"');
            proof {
                lemma_json_members_push(self@.take(i as int), self@[i as int]);
                assert(self@.take(i as int).push(self@[i as int]) =~= self@.take(i + 1));
                assert(out@ =~= seq!['{'] + json_members(self@.take(i + 1)));
            }
            i = i + 1;
        }
        push_char(&mut out, '}');
        proof {
            assert(self@.take(n as int) =~= self@);
        }
        out
    }

    /// A new list in which every pair whose key is `old_key` has the key `new_key`; values and
    /// order are kept, and `self` is left as it is.
    pub fn replace_key(&self, old_key: &str, new_key: &str) -> (r: Self)
        ensures
            r@ == rekey(self@, old_key@, new_key@),
    {
        let mut inner: Vec<(String, String)> = Vec::new();
        let n = self.inner.len();
        let mut i: usize = 0;
        while i < n
            invariant
                n == self.inner@.len(),
                0 <= i <= n,
                inner@.len() == i,
                forall|j: int|
                    0 <= j < i ==> (#[trigger] inner@[j]).0@ == rekey(self@, old_key@, new_key@)[j].0
                        && inner@[j].1@ == rekey(self@, old_key@, new_key@)[j].1,
            decreases n - i,
        {
            let k: String = if same_text(self.inner[i].0.as_str(), old_key) {
                new_key.to_owned()
            } else {
                self.inner[i].0.clone()
            };
            let v: String = self.inner[i].1.clone();
            inner.push((k, v));
            i = i + 1;
        }
        let r = QueryParams { inner };
        proof {
            assert(r@ =~= rekey(self@, old_key@, new_key@));
        }
        r
    }

    /// A new list in which every pair whose value is `old_val` has the value `new_val`; keys
    /// and order are kept, and `self` is left as it is.
    pub fn replace_value(&self, old_val: &str, new_val: &str) -> (r: Self)
        ensures
            r@ == revalue(self@, old_val@, new_val@),
    {
        let mut inner: Vec<(String, String)> = Vec::new();
        let n = self.inner.len();
        let mut i: usize = 0;
        while i < n
            invariant
                n == self.inner@.len(),
                0 <= i <= n,
                inner@.len() == i,
                forall|j: int|
                    0 <= j < i ==> (#[trigger] inner@[j]).0@ == revalue(self@, old_val@, new_val@)[j].0
                        && inner@[j].1@ == revalue(self@, old_val@, new_val@)[j].1,
            decreases n - i,
        {
            let k: String = self.inner[i].0.clone();
            let v: String = if same_text(self.inner[i].1.as_str(), old_val) {
                new_val.to_owned()
            } else {
                self.inner[i].1.clone()
            };
            inner.push((k, v));
            i = i + 1;
        }
        let r = QueryParams { inner };
        proof {
            assert(r@ =~= revalue(self@, old_val@, new_val@));
        }
        r
    }

    /// Applies the key substitutions `old_keys[i] -> new_keys[i]` one after another, each to
    /// the result of the ones before. Fails with `InvalidArgument`, and rewrites nothing, when
    /// the two lists differ in length.
    pub fn replace_keys(&self, old_keys: &[&str], new_keys: &[&str]) -> (r: Result<
        Self,
        QueryError,
    >)
        ensures
            r is Err <==> old_keys@.len() != new_keys@.len(),
            r matches Err(e) ==> e == QueryError::InvalidArgument,
            r matches Ok(q) ==> q@ == rekey_all(self@, texts_view(old_keys@), texts_view(new_keys@)),
    {
        if old_keys.len() != new_keys.len() {
            return Err(QueryError::InvalidArgument);
        }
        let ghost olds = texts_view(old_keys@);
        let ghost news = texts_view(new_keys@);
        let mut q = self.clone_pairs();
        let n = old_keys.len();
        let mut j: usize = 0;
        proof {
            assert(olds.take(0) =~= Seq::<Seq<char>>::empty());
            assert(news.take(0) =~= Seq::<Seq<char>>::empty());
        }
        while j < n
            invariant
                n == old_keys@.len(),
                n == new_keys@.len(),
                olds == texts_view(old_keys@),
                news == texts_view(new_keys@),
                0 <= j <= n,
                q@ == rekey_all(self@, olds.take(j as int), news.take(j as int)),
            decreases n - j,
        {
            proof {
                lemma_rekey_all_take(self@, olds, news, j as int);
            }
            q = q.replace_key(old_keys[j], new_keys[j]);
            j = j + 1;
        }
        proof {
            assert(olds.take(n as int) =~= olds);
            assert(news.take(n as int) =~= news);
        }
        Ok(q)
    }

    /// Applies the value substitutions `old_vals[i] -> new_vals[i]` one after another, each
    /// to the result of the ones before. Fails with `InvalidArgument`, and rewrites nothing,
    /// when the two lists differ in length.
    pub fn replace_values(&self, old_vals: &[&str], new_vals: &[&str]) -> (r: Result<
        Self,
        QueryError,
    >)
        ensures
            r is Err <==> old_vals@.len() != new_vals@.len(),
            r matches Err(e) ==> e == QueryError::InvalidArgument,
            r matches Ok(q) ==> q@ == revalue_all(self@, texts_view(old_vals@), texts_view(new_vals@)),
    {
        if old_vals.len() != new_vals.len() {
            return Err(QueryError::InvalidArgument);
        }
        let ghost olds = texts_view(old_vals@);
        let ghost news = texts_view(new_vals@);
        let mut q = self.clone_pairs();
        let n = old_vals.len();
        let mut j: usize = 0;
        proof {
            assert(olds.take(0) =~= Seq::<Seq<char>>::empty());
            assert(news.take(0) =~= Seq::<Seq<char>>::empty());
        }
        while j < n
            invariant
                n == old_vals@.len(),
                n == new_vals@.len(),
                olds == texts_view(old_vals@),
                news == texts_view(new_vals@),
                0 <= j <= n,
                q@ == revalue_all(self@, olds.take(j as int), news.take(j as int)),
            decreases n - j,
        {
            proof {
                lemma_revalue_all_take(self@, olds, news, j as int);
            }
            q = q.replace_value(old_vals[j], new_vals[j]);
            j = j + 1;
        }
        proof {
            assert(olds.take(n as int) =~= olds);
            assert(news.take(n as int) =~= news);
        }
        Ok(q)
    }

    /// An iterator over the pairs, in order.
    pub fn iter(&self) -> (r: std::slice::Iter<'_, (String, String)>)
        ensures
            pairs_view(r.remaining().unref()) == self@,
    {
        let r = self.inner.as_slice().iter();
        proof {
            broadcast use vstd::std_specs::slice::axiom_spec_slice_iter;
            assert(self.inner@.as_ref().unref() =~= self.inner@);
        }
        r
    }

    /// A copy of the list, pair by pair.
    fn clone_pairs(&self) -> (r: Self)
        ensures
            r@ == self@,
    {
        let mut inner: Vec<(String, String)> = Vec::new();
        let n = self.inner.len();
        let mut i: usize = 0;
        while i < n
            invariant
                n == self.inner@.len(),
                0 <= i <= n,
                inner@.len() == i,
                forall|j: int|
                    0 <= j < i ==> (#[trigger] inner@[j]).0@ == self@[j].0 && inner@[j].1@
                        == self@[j].1,
            decreases n - i,
        {
            let k: String = self.inner[i].0.clone();
            let v: String = self.inner[i].1.clone();
            inner.push((k, v));
            i = i + 1;
        }
        let r = QueryParams { inner };
        proof {
            assert(r@ =~= self@);
        }
        r
    }

    /// Whether escaping leaves the byte as it is.
    pub fn keep_as(n: u8) -> (r: bool)
        ensures
            r == is_unreserved(n),
    {
        // ASCII digits, upper-case and lower-case letters
        (0x30 <= n && n <= 0x39) || (0x41 <= n && n <= 0x5a) || (0x61 <= n && n <= 0x7a)
        // * - . _ ' ~ ! ( )
            || n == 0x2a || n == 0x2d || n == 0x2e || n == 0x5f || n == 0x27 || n == 0x7e
            || n == 0x21 || n == 0x28 || n == 0x29
    }

    /// The ASCII code of the upper-case hexadecimal digit for `n`; 127 when `n` is over 15.
    pub fn to_dec_ascii(n: u8) -> (r: u8)
        ensures
            r == hex_digit(n),
    {
        if n < 10 {
            0x30 + n
        } else if n < 16 {
            0x41 + (n - 10)
        } else {
            127
        }
    }

    /// Percent-escapes `s` byte by byte over its UTF-8 encoding.
    pub fn escape(s: &str) -> (r: String)
        ensures
            r@ == escaped(s@),
    {
        let mut out = String::new();
        escape_onto(&mut out, s);
        proof {
            assert(out@ =~= escaped(s@));
        }
        out
    }

    /// The query-string form: `key=value&` for each pair in order, `key&` where the value is
    /// empty, keys and values percent-escaped.
    pub fn stringify(&self) -> (r: String)
        ensures
            r@ == stringify_pairs(self@),
    {
        let mut out = String::new();
        let n = self.inner.len();
        let mut i: usize = 0;
        while i < n
            invariant
                n == self.inner@.len(),
                0 <= i <= n,
                out@ == stringify_pairs(self@.take(i as int)),
            decreases n - i,
        {
            let k = &self.inner[i].0;
            let v = &self.inner[i].1;
            escape_onto(&mut out, k.as_str());
            if v.as_str().is_empty() {
                push_char(&mut out, '&');
            } else {
                push_char(&mut out, '=');
                escape_onto(&mut out, v.as_str());
                push_char(&mut out, '&');
            }
            proof {
                lemma_stringify_push(self@.take(i as int), self@[i as int]);
                assert(self@.take(i as int).push(self@[i as int]) =~= self@.take(i + 1));
            }
            i = i + 1;
        }
        proof {
            assert(self@.take(n as int) =~= self@);
        }
        out
    }
}

/// Appends the escape of `s` to `out`.
fn escape_onto(out: &mut String, s: &str)
    ensures
        final(out)@ == old(out)@ + escaped(s@),
{
    let bytes = s.as_bytes();
    let n = bytes.len();
    let ghost start = out@;
    let mut i: usize = 0;
    while i < n
        invariant
            n == bytes@.len(),
            bytes@ == encode_utf8(s@),
            0 <= i <= n,
            out@ == start + escape_bytes(bytes@.take(i as int)),
        decreases n - i,
    {
        let b = bytes[i];
        if QueryParams::keep_as(b) {
            push_char(out, b as char);
        } else {
            push_char(out, '%');
            push_char(out, QueryParams::to_dec_ascii(b / 16) as char);
            push_char(out, QueryParams::to_dec_ascii(b % 16) as char);
        }
        proof {
            lemma_escape_bytes_push(bytes@.take(i as int), b);
            assert(bytes@.take(i as int).push(b) =~= bytes@.take(i + 1));
        }
        i = i + 1;
    }
    proof {
        assert(bytes@.take(n as int) =~= bytes@);
    }
}

} // verus!
