use vstd::prelude::*;

use crate::ast::{models, values_model, ColumnDefinition, ColumnModel, CreateTableStatement, DataType, SchemaModel, Value, ValueModel};
use crate::storage::StorageError;
use crate::text::{
    all_digits, chars_of, decimal_int, decimal_nat, digits_value, int_of_text, lemma_int_of_decimal, push_char, push_int, push_str,
    string_of_range, matches_at,
};

verus! {

// ---------------------------------------------------------------------------
// Row format: fields joined by `|`; a field is `INT:<n>`, `STRING:<escaped>`
// or `NULL`. In string text, `\` becomes `\\`, `|` becomes `\|`, and a newline
// becomes `\n`.
// ---------------------------------------------------------------------------

pub open spec fn int_tag() -> Seq<char> {
    seq!['I', 'N', 'T', ':']
}

pub open spec fn string_tag() -> Seq<char> {
    seq!['S', 'T', 'R', 'I', 'N', 'G', ':']
}

pub open spec fn null_text() -> Seq<char> {
    seq!['N', 'U', 'L', 'L']
}

pub open spec fn escape_char(c: char) -> Seq<char> {
    if c == '\\' {
        seq!['\\', '\\']
    } else if c == '|' {
        seq!['\\', '|']
    } else if c == '\n' {
        seq!['\\', 'n']
    } else {
        seq![c]
    }
}

pub open spec fn escape(s: Seq<char>) -> Seq<char>
    decreases s.len(),
{
    if s.len() == 0 {
        Seq::empty()
    } else {
        escape_char(s[0]) + escape(s.skip(1))
    }
}

/// Reverses `escape` one escaped pair at a time; any other pair is kept.
pub open spec fn unescape(s: Seq<char>) -> Seq<char>
    decreases s.len(),
{
    if s.len() == 0 {
        Seq::empty()
    } else if s[0] == '\\' && s.len() >= 2 {
        let c = s[1];
        let head = if c == '|' {
            seq!['|']
        } else if c == 'n' {
            seq!['\n']
        } else if c == '\\' {
            seq!['\\']
        } else {
            seq!['\\', c]
        };
        head + unescape(s.skip(2))
    } else {
        seq![s[0]] + unescape(s.skip(1))
    }
}

pub open spec fn encode_value(v: ValueModel) -> Seq<char> {
    match v {
        ValueModel::Int(n) => int_tag() + decimal_int(n as int),
        ValueModel::Str(s) => string_tag() + escape(s),
        ValueModel::Null => null_text(),
    }
}

/// The text of one row: its encoded fields joined by `|`.
pub open spec fn encode_row(vs: Seq<ValueModel>) -> Seq<char>
    decreases vs.len(),
{
    if vs.len() == 0 {
        Seq::empty()
    } else if vs.len() == 1 {
        encode_value(vs[0])
    } else {
        encode_row(vs.drop_last()) + seq!['|'] + encode_value(vs.last())
    }
}

/// `s` cut at every `|` that is not the second half of a `\`-pair.
pub open spec fn split_all(s: Seq<char>) -> Seq<Seq<char>>
    decreases s.len(),
{
    if s.len() == 0 {
        seq![Seq::empty()]
    } else if s[0] == '\\' && s.len() >= 2 {
        let t = split_all(s.skip(2));
        t.update(0, seq![s[0], s[1]] + t[0])
    } else if s[0] == '|' {
        seq![Seq::<char>::empty()] + split_all(s.skip(1))
    } else {
        let t = split_all(s.skip(1));
        t.update(0, seq![s[0]] + t[0])
    }
}

/// The fields of a row's text; an empty text has none.
pub open spec fn split_fields(s: Seq<char>) -> Seq<Seq<char>> {
    if s.len() == 0 {
        Seq::empty()
    } else {
        split_all(s)
    }
}

pub open spec fn decode_field(p: Seq<char>) -> Option<ValueModel> {
    if p == null_text() {
        Some(ValueModel::Null)
    } else if p.len() >= 4 && p.take(4) == int_tag() {
        match int_of_text(p.skip(4)) {
            Some(n) => Some(ValueModel::Int(n)),
            None => None,
        }
    } else if p.len() >= 7 && p.take(7) == string_tag() {
        Some(ValueModel::Str(unescape(p.skip(7))))
    } else {
        None
    }
}

/// The values of a row's text, or `None` where a field is malformed.
pub open spec fn decode_row(s: Seq<char>) -> Option<Seq<ValueModel>> {
    let ps = split_fields(s);
    if forall|i: int| 0 <= i < ps.len() ==> (#[trigger] decode_field(ps[i])) is Some {
        Some(Seq::new(ps.len(), |i: int| decode_field(ps[i])->0))
    } else {
        None
    }
}

// ---------------------------------------------------------------------------
// Round trip
// ---------------------------------------------------------------------------

/// Every `\` in `s` starts a pair.
pub open spec fn complete(s: Seq<char>) -> bool
    decreases s.len(),
{
    if s.len() == 0 {
        true
    } else if s[0] == '\\' {
        s.len() >= 2 && complete(s.skip(2))
    } else {
        complete(s.skip(1))
    }
}

/// Every `\` in `s` starts a pair, and every `|` is the second half of one.
pub open spec fn clean(s: Seq<char>) -> bool
    decreases s.len(),
{
    if s.len() == 0 {
        true
    } else if s[0] == '\\' {
        s.len() >= 2 && clean(s.skip(2))
    } else {
        s[0] != '|' && clean(s.skip(1))
    }
}

pub open spec fn splice(parts: Seq<Seq<char>>, cur: Seq<char>, tail: Seq<Seq<char>>) -> Seq<
    Seq<char>,
> {
    parts + seq![cur + tail[0]] + tail.skip(1)
}

proof fn lemma_split_all_len(s: Seq<char>)
    ensures
        split_all(s).len() >= 1,
    decreases s.len(),
{
    if s.len() == 0 {
    } else if s[0] == '\\' && s.len() >= 2 {
        lemma_split_all_len(s.skip(2));
    } else if s[0] == '|' {
        lemma_split_all_len(s.skip(1));
    } else {
        lemma_split_all_len(s.skip(1));
    }
}

proof fn lemma_split_prefix(pre: Seq<char>, a: Seq<Seq<char>>, t: Seq<Seq<char>>)
    requires
        a.len() >= 1,
        t.len() >= 1,
    ensures
        splice(a.update(0, pre + a[0]).drop_last(), a.update(0, pre + a[0]).last(), t) =~= splice(
            a.drop_last(),
            a.last(),
            t,
        ).update(0, pre + splice(a.drop_last(), a.last(), t)[0]),
{
    if a.len() == 1 {
        assert(pre + a[0] + t[0] =~= pre + (a[0] + t[0]));
    }
}

proof fn lemma_split_concat(x: Seq<char>, t: Seq<char>)
    requires
        complete(x),
    ensures
        split_all(x + t) =~= splice(split_all(x).drop_last(), split_all(x).last(), split_all(t)),
    decreases x.len(),
{
    lemma_split_all_len(t);
    if x.len() == 0 {
        assert(x + t =~= t);
    } else if x[0] == '\\' {
        let r = x.skip(2);
        assert((x + t).skip(2) =~= r + t);
        lemma_split_concat(r, t);
        lemma_split_all_len(r);
        lemma_split_prefix(seq![x[0], x[1]], split_all(r), split_all(t));
    } else if x[0] == '|' {
        let r = x.skip(1);
        assert((x + t).skip(1) =~= r + t);
        lemma_split_concat(r, t);
        lemma_split_all_len(r);
        let a = split_all(r);
        assert((seq![Seq::<char>::empty()] + a).drop_last() =~= seq![Seq::<char>::empty()]
            + a.drop_last());
    } else {
        let r = x.skip(1);
        assert((x + t).skip(1) =~= r + t);
        lemma_split_concat(r, t);
        lemma_split_all_len(r);
        lemma_split_prefix(seq![x[0]], split_all(r), split_all(t));
    }
}

proof fn lemma_clean_split(y: Seq<char>)
    requires
        clean(y),
    ensures
        split_all(y) =~= seq![y],
        complete(y),
    decreases y.len(),
{
    if y.len() == 0 {
        assert(y =~= Seq::<char>::empty());
    } else if y[0] == '\\' {
        lemma_clean_split(y.skip(2));
        assert(seq![y[0], y[1]] + y.skip(2) =~= y);
        assert(split_all(y) =~= seq![seq![y[0], y[1]] + y.skip(2)]);
    } else {
        lemma_clean_split(y.skip(1));
        assert(seq![y[0]] + y.skip(1) =~= y);
        assert(split_all(y) =~= seq![seq![y[0]] + y.skip(1)]);
    }
}

proof fn lemma_complete_concat(a: Seq<char>, b: Seq<char>)
    requires
        complete(a),
        complete(b),
    ensures
        complete(a + b),
    decreases a.len(),
{
    if a.len() == 0 {
        assert(a + b =~= b);
    } else if a[0] == '\\' {
        lemma_complete_concat(a.skip(2), b);
        assert((a + b).skip(2) =~= a.skip(2) + b);
    } else {
        lemma_complete_concat(a.skip(1), b);
        assert((a + b).skip(1) =~= a.skip(1) + b);
    }
}

proof fn lemma_clean_concat(a: Seq<char>, b: Seq<char>)
    requires
        clean(a),
        clean(b),
    ensures
        clean(a + b),
    decreases a.len(),
{
    if a.len() == 0 {
        assert(a + b =~= b);
    } else if a[0] == '\\' {
        lemma_clean_concat(a.skip(2), b);
        assert((a + b).skip(2) =~= a.skip(2) + b);
    } else {
        lemma_clean_concat(a.skip(1), b);
        assert((a + b).skip(1) =~= a.skip(1) + b);
    }
}

proof fn lemma_plain_clean(s: Seq<char>)
    requires
        forall|k: int| 0 <= k < s.len() ==> s[k] != '\\' && s[k] != '|',
    ensures
        clean(s),
    decreases s.len(),
{
    if s.len() > 0 {
        assert(s[0] != '\\' && s[0] != '|');
        lemma_plain_clean(s.skip(1));
    }
}

proof fn lemma_escape(s: Seq<char>)
    ensures
        clean(escape(s)),
        unescape(escape(s)) =~= s,
    decreases s.len(),
{
    if s.len() > 0 {
        let e = escape(s);
        let rest = escape(s.skip(1));
        lemma_escape(s.skip(1));
        let c = s[0];
        if c == '\\' || c == '|' || c == '\n' {
            assert(e.skip(2) =~= rest);
        } else {
            assert(e.skip(1) =~= rest);
        }
        assert(seq![c] + s.skip(1) =~= s);
    }
}

proof fn lemma_encode_value(v: ValueModel)
    ensures
        clean(encode_value(v)),
        encode_value(v).len() > 0,
        decode_field(encode_value(v)) == Some(v),
{
    reveal_with_fuel(clean, 8);
    let e = encode_value(v);
    match v {
        ValueModel::Int(n) => {
            let d = decimal_int(n as int);
            lemma_int_of_decimal(n);
            crate::text::lemma_decimal_nat(if n < 0 { (-n) as nat } else { n as nat });
            assert forall|k: int| 0 <= k < d.len() implies d[k] != '\\' && d[k] != '|' by {
                if n < 0 && k > 0 {
                    assert(d[k] == crate::text::decimal_nat((-n) as nat)[k - 1]);
                }
            }
            lemma_plain_clean(d);
            lemma_clean_concat(int_tag(), d);
            assert(e[0] == 'I');
            assert(e.take(4) =~= int_tag());
            assert(e.skip(4) =~= d);
        },
        ValueModel::Str(s) => {
            lemma_escape(s);
            lemma_clean_concat(string_tag(), escape(s));
            assert(e[0] == 'S');
            assert(e.take(7) =~= string_tag());
            assert(e.skip(7) =~= escape(s));
            assert(e.take(4) != int_tag()) by {
                assert(e.take(4)[0] == 'S');
            }
        },
        ValueModel::Null => {},
    }
}

proof fn lemma_encode_row_split(vs: Seq<ValueModel>)
    requires
        vs.len() >= 1,
    ensures
        complete(encode_row(vs)),
        encode_row(vs).len() > 0,
        split_all(encode_row(vs)) =~= vs.map_values(|v: ValueModel| encode_value(v)),
    decreases vs.len(),
{
    lemma_encode_value(vs.last());
    lemma_clean_split(encode_value(vs.last()));
    if vs.len() == 1 {
    } else {
        let x = encode_row(vs.drop_last());
        let y = encode_value(vs.last());
        lemma_encode_row_split(vs.drop_last());
        let bar_y = seq!['|'] + y;
        assert(x + seq!['|'] + y =~= x + bar_y);
        lemma_split_concat(x, bar_y);
        assert(bar_y.skip(1) =~= y);
        assert(split_all(bar_y) =~= seq![Seq::<char>::empty(), y]);
        lemma_split_all_len(x);
        assert(complete(bar_y)) by {
            assert(bar_y.skip(1) =~= y);
        }
        lemma_complete_concat(x, bar_y);
    }
}

/// Decoding the text of a row gives back the values it was written from,
/// whatever the strings hold (`|`, `\`, newlines included).
pub proof fn lemma_row_round_trip(vs: Seq<ValueModel>)
    ensures
        decode_row(encode_row(vs)) == Some(vs),
{
    let s = encode_row(vs);
    if vs.len() == 0 {
        assert(decode_row(s)->0 =~= vs);
    } else {
        lemma_encode_row_split(vs);
        let ps = split_fields(s);
        assert forall|i: int| 0 <= i < ps.len() implies (#[trigger] decode_field(ps[i])) == Some(
            vs[i],
        ) by {
            lemma_encode_value(vs[i]);
        }
        assert(decode_row(s)->0 =~= vs);
    }
}

} // verus!

verus! {

pub open spec fn parts_model(ps: Seq<Vec<char>>) -> Seq<Seq<char>> {
    ps.map_values(|p: Vec<char>| p@)
}

fn push_escaped(out: &mut String, s: &String)
    ensures
        final(out)@ == old(out)@ + escape(s@),
{
    let cs = chars_of(s.as_str());
    let n = cs.len();
    let mut i: usize = 0;
    assert(cs@.skip(0) =~= cs@);
    while i < n
        invariant
            n == cs@.len(),
            cs@ == s@,
            i <= n,
            out@ + escape(cs@.skip(i as int)) == old(out)@ + escape(s@),
        decreases n - i,
    {
        let c = cs[i];
        let ghost rest = cs@.skip(i as int);
        proof {
            assert(rest.skip(1) =~= cs@.skip(i + 1));
            assert(escape(rest) == escape_char(c) + escape(cs@.skip(i + 1)));
        }
        let ghost before = out@;
        if c == '\\' {
            push_char(out, '\\');
            push_char(out, '\\');
        } else if c == '|' {
            push_char(out, '\\');
            push_char(out, '|');
        } else if c == '\n' {
            push_char(out, '\\');
            push_char(out, 'n');
        } else {
            push_char(out, c);
        }
        assert(out@ =~= before + escape_char(c));
        assert(out@ + escape(cs@.skip(i + 1)) =~= before + escape(rest));
        i = i + 1;
    }
    assert(cs@.skip(n as int) =~= Seq::<char>::empty());
    assert(out@ =~= out@ + escape(cs@.skip(n as int)));
}

fn push_value(out: &mut String, v: &Value)
    ensures
        final(out)@ == old(out)@ + encode_value(v@),
{
    match v {
        Value::Int(n) => {
            push_str(out, "INT:");
            proof {
                reveal_strlit("INT:");
            }
            push_int(out, *n);
            assert(final(out)@ =~= old(out)@ + encode_value(v@));
        },
        Value::String(s) => {
            push_str(out, "STRING:");
            proof {
                reveal_strlit("STRING:");
            }
            push_escaped(out, s);
            assert(final(out)@ =~= old(out)@ + encode_value(v@));
        },
        Value::Null => {
            push_str(out, "NULL");
            proof {
                reveal_strlit("NULL");
            }
            assert(final(out)@ =~= old(out)@ + encode_value(v@));
        },
    }
}

/// The text of a row: `INT:<n>`, `STRING:<escaped>` or `NULL` per value, joined by `|`.
pub fn serialize_row(values: &[Value]) -> (r: String)
    ensures
        r@ == encode_row(values_model(values@)),
{
    let ghost vs = values_model(values@);
    let mut out = String::new();
    let mut i: usize = 0;
    while i < values.len()
        invariant
            i <= values@.len(),
            vs == values_model(values@),
            out@ == encode_row(vs.take(i as int)),
        decreases values@.len() - i,
    {
        if i > 0 {
            push_char(&mut out, '|');
        }
        push_value(&mut out, &values[i]);
        proof {
            let t = vs.take(i + 1);
            assert(t.drop_last() =~= vs.take(i as int));
            assert(t.last() == values@[i as int]@);
            assert(out@ =~= encode_row(t));
        }
        i = i + 1;
    }
    assert(vs.take(values@.len() as int) =~= vs);
    out
}

fn split_row(cs: &Vec<char>) -> (r: Vec<Vec<char>>)
    ensures
        parts_model(r@) == split_fields(cs@),
{
    let n = cs.len();
    let mut parts: Vec<Vec<char>> = Vec::new();
    let mut cur: Vec<char> = Vec::new();
    let mut i: usize = 0;
    proof {
        assert(cs@.skip(0) =~= cs@);
        lemma_split_all_len(cs@);
        assert(parts_model(parts@) =~= Seq::<Seq<char>>::empty());
        assert(cur@ + split_all(cs@)[0] =~= split_all(cs@)[0]);
        assert(splice(parts_model(parts@), cur@, split_all(cs@)) =~= split_all(cs@));
    }
    while i < n
        invariant
            n == cs@.len(),
            i <= n,
            splice(parts_model(parts@), cur@, split_all(cs@.skip(i as int))) == split_all(cs@),
            i > 0 ==> parts@.len() > 0 || cur@.len() > 0,
        decreases n - i,
    {
        let c = cs[i];
        let ghost r = cs@.skip(i as int);
        let ghost p0 = parts_model(parts@);
        let ghost c0 = cur@;
        if c == '\\' && i + 1 < n {
            let d = cs[i + 1];
            cur.push(c);
            cur.push(d);
            proof {
                assert(r.skip(2) =~= cs@.skip(i + 2));
                lemma_split_all_len(cs@.skip(i + 2));
                let t = split_all(cs@.skip(i + 2));
                assert(split_all(r) == t.update(0, seq![c, d] + t[0]));
                assert(c0 + (seq![c, d] + t[0]) =~= cur@ + t[0]);
                assert(splice(p0, cur@, t) =~= splice(p0, c0, split_all(r)));
            }
            i = i + 2;
        } else if c == '|' {
            parts.push(cur);
            cur = Vec::new();
            proof {
                assert(r.skip(1) =~= cs@.skip(i + 1));
                lemma_split_all_len(cs@.skip(i + 1));
                let t = split_all(cs@.skip(i + 1));
                assert(parts_model(parts@) =~= p0.push(c0));
                assert(splice(parts_model(parts@), cur@, t) =~= splice(p0, c0, split_all(r)));
            }
            i = i + 1;
        } else {
            cur.push(c);
            proof {
                assert(r.skip(1) =~= cs@.skip(i + 1));
                lemma_split_all_len(cs@.skip(i + 1));
                let t = split_all(cs@.skip(i + 1));
                assert(split_all(r) == t.update(0, seq![c] + t[0]));
                assert(c0 + (seq![c] + t[0]) =~= cur@ + t[0]);
                assert(splice(p0, cur@, t) =~= splice(p0, c0, split_all(r)));
            }
            i = i + 1;
        }
    }
    proof {
        assert(cs@.skip(n as int) =~= Seq::<char>::empty());
        assert(cur@ + Seq::<char>::empty() =~= cur@);
    }
    if parts.len() > 0 || cur.len() > 0 {
        let ghost p0 = parts_model(parts@);
        parts.push(cur);
        assert(parts_model(parts@) =~= splice(p0, cur@, seq![Seq::<char>::empty()]));
    } else {
        assert(parts_model(parts@) =~= split_fields(cs@));
    }
    parts
}

/// `int_of_text` of `p[start..]`.
fn parse_int_from(p: &Vec<char>, start: usize) -> (r: Option<i64>)
    requires
        start <= p@.len(),
    ensures
        r == int_of_text(p@.skip(start as int)),
{
    let ghost t = p@.skip(start as int);
    let n = p.len();
    assert(t.len() == n - start);
    assert(t.len() > 0 ==> t[0] == p@[start as int]);
    let mut k: usize = start;
    let mut neg = false;
    if k < n && (p[k] == '-' || p[k] == '+') {
        neg = p[k] == '-';
        k = k + 1;
    }
    let ghost d = p@.subrange(k as int, n as int);
    proof {
        if t.len() > 0 && (t[0] == '-' || t[0] == '+') {
            assert(t.skip(1) =~= d);
        } else {
            assert(t =~= d);
        }
        assert(neg == (t.len() > 0 && t[0] == '-'));
    }
    if k == n {
        assert(p@.subrange(k as int, n as int).len() == 0);
        return None;
    }
    if !crate::text::digits_in(p, k, n) {
        return None;
    }
    let v = crate::text::digits_value_capped(p, k, n, 0x8000_0000_0000_0001u128);
    if neg {
        if v <= 0x8000_0000_0000_0000u128 {
            Some((-(v as i128)) as i64)
        } else {
            None
        }
    } else {
        if v <= 0x7fff_ffff_ffff_ffffu128 {
            Some(v as i64)
        } else {
            None
        }
    }
}

/// `unescape` of `p[start..]`.
fn unescape_from(p: &Vec<char>, start: usize) -> (r: String)
    requires
        start <= p@.len(),
    ensures
        r@ == unescape(p@.skip(start as int)),
{
    let n = p.len();
    let mut out = String::new();
    let mut i: usize = start;
    while i < n
        invariant
            start <= i <= n,
            n == p@.len(),
            out@ + unescape(p@.skip(i as int)) == unescape(p@.skip(start as int)),
        decreases n - i,
    {
        let c = p[i];
        let ghost r = p@.skip(i as int);
        let ghost before = out@;
        if c == '\\' && i + 1 < n {
            let d = p[i + 1];
            if d == '|' {
                push_char(&mut out, '|');
            } else if d == 'n' {
                push_char(&mut out, '\n');
            } else if d == '\\' {
                push_char(&mut out, '\\');
            } else {
                push_char(&mut out, '\\');
                push_char(&mut out, d);
            }
            proof {
                assert(r.skip(2) =~= p@.skip(i + 2));
                assert(r[1] == d);
                assert(out@ + unescape(p@.skip(i + 2)) =~= before + unescape(r));
            }
            i = i + 2;
        } else {
            push_char(&mut out, c);
            proof {
                assert(r.skip(1) =~= p@.skip(i + 1));
                assert(out@ + unescape(p@.skip(i + 1)) =~= before + unescape(r));
            }
            i = i + 1;
        }
    }
    assert(p@.skip(n as int) =~= Seq::<char>::empty());
    assert(out@ + Seq::<char>::empty() =~= out@);
    out
}

fn decode_part(p: &Vec<char>) -> (r: Option<Value>)
    ensures
        match r {
            Some(v) => decode_field(p@) == Some(v@),
            None => decode_field(p@) is None,
        },
{
    proof {
        reveal_strlit("NULL");
        reveal_strlit("INT:");
        reveal_strlit("STRING:");
        assert("NULL"@ =~= null_text());
        assert("INT:"@ =~= int_tag());
        assert("STRING:"@ =~= string_tag());
    }
    if p.len() == 4 && matches_at(p, 0, "NULL") {
        assert(p@ =~= p@.subrange(0, 4));
        return Some(Value::Null);
    }
    assert(p@ != null_text()) by {
        if p@.len() == 4 {
            assert(p@ =~= p@.subrange(0, 4));
        }
    }
    if matches_at(p, 0, "INT:") {
        assert(p@.take(4) =~= p@.subrange(0, 4));
        match parse_int_from(p, 4) {
            Some(n) => Some(Value::Int(n)),
            None => None,
        }
    } else if matches_at(p, 0, "STRING:") {
        assert(p@.take(4) != int_tag() || p@.len() < 4) by {
            if p@.len() >= 4 {
                assert(p@.take(4) =~= p@.subrange(0, 4));
            }
        }
        assert(p@.take(7) =~= p@.subrange(0, 7));
        Some(Value::String(unescape_from(p, 7)))
    } else {
        assert(p@.len() < 4 || p@.take(4) != int_tag()) by {
            if p@.len() >= 4 {
                assert(p@.take(4) =~= p@.subrange(0, 4));
            }
        }
        assert(p@.len() < 7 || p@.take(7) != string_tag()) by {
            if p@.len() >= 7 {
                assert(p@.take(7) =~= p@.subrange(0, 7));
            }
        }
        None
    }
}

/// Reads one row's text back into values.
pub fn deserialize_row(s: &str) -> (r: Result<Vec<Value>, StorageError>)
    ensures
        match r {
            Ok(vs) => decode_row(s@) == Some(values_model(vs@)),
            Err(e) => decode_row(s@) is None && e is InvalidData,
        },
{
    let cs = chars_of(s);
    decode_row_chars(&cs)
}

fn decode_row_chars(s: &Vec<char>) -> (r: Result<Vec<Value>, StorageError>)
    ensures
        match r {
            Ok(vs) => decode_row(s@) == Some(values_model(vs@)),
            Err(e) => decode_row(s@) is None && e is InvalidData,
        },
{
    let parts = split_row(s);
    let ghost ps = split_fields(s@);
    let mut values: Vec<Value> = Vec::new();
    let mut i: usize = 0;
    while i < parts.len()
        invariant
            i <= parts@.len(),
            ps == parts_model(parts@),
            ps == split_fields(s@),
            values@.len() == i,
            forall|j: int| 0 <= j < i ==> decode_field(ps[j]) == Some(#[trigger] values@[j]@),
        decreases parts@.len() - i,
    {
        match decode_part(&parts[i]) {
            Some(v) => {
                assert(ps[i as int] == parts@[i as int]@);
                values.push(v);
            },
            None => {
                assert(ps[i as int] == parts@[i as int]@);
                assert(decode_field(ps[i as int]) is None);
                assert(decode_row(s@) is None) by {
                    assert(split_fields(s@) == ps);
                    assert(!(forall|m: int|
                        0 <= m < ps.len() ==> (#[trigger] decode_field(ps[m])) is Some));
                }
                let mut msg = String::new();
                push_str(&mut msg, "Invalid value format: ");
                let part = string_of_range(&parts[i], 0, parts[i].len());
                push_str(&mut msg, part.as_str());
                return Err(StorageError::InvalidData(msg));
            },
        }
        i = i + 1;
    }
    assert(ps.len() == values@.len());
    assert forall|j: int| 0 <= j < ps.len() implies (#[trigger] decode_field(ps[j])) is Some by {
        assert(decode_field(ps[j]) == Some(values@[j]@));
    }
    assert(decode_row(s@)->0 =~= values_model(values@));
    Ok(values)
}

} // verus!

verus! {

// ---------------------------------------------------------------------------
// Schema format: the table name on the first line, then one `name:TYPE` line
// per column, TYPE being `INT`, `VARCHAR` or `VARCHAR(n)`.
// ---------------------------------------------------------------------------

pub open spec fn type_text(dt: DataType) -> Seq<char> {
    match dt {
        DataType::Int => seq!['I', 'N', 'T'],
        DataType::Varchar(None) => varchar_text(),
        DataType::Varchar(Some(n)) => varchar_text() + seq!['('] + decimal_nat(n as nat) + seq![')'],
    }
}

pub open spec fn varchar_text() -> Seq<char> {
    seq!['V', 'A', 'R', 'C', 'H', 'A', 'R']
}

/// What reading `t` as a whole as an unsigned size gives: an optional `+`,
/// then at least one digit, within range.
pub open spec fn size_of_text(t: Seq<char>) -> Option<usize> {
    let d = if t.len() > 0 && t[0] == '+' { t.skip(1) } else { t };
    if d.len() > 0 && all_digits(d) && digits_value(d) <= usize::MAX {
        Some(digits_value(d) as usize)
    } else {
        None
    }
}

pub open spec fn type_of_text(t: Seq<char>) -> Option<DataType> {
    if t == seq!['I', 'N', 'T'] {
        Some(DataType::Int)
    } else if t == varchar_text() {
        Some(DataType::Varchar(None))
    } else if t.len() >= 9 && t.take(8) == varchar_text() + seq!['('] && t.last() == ')' {
        match size_of_text(t.subrange(8, t.len() - 1)) {
            Some(n) => Some(DataType::Varchar(Some(n))),
            None => None,
        }
    } else {
        None
    }
}

pub open spec fn column_line(c: ColumnModel) -> Seq<char> {
    c.name + seq![':'] + type_text(c.data_type) + seq!['\n']
}

pub open spec fn columns_text(cs: Seq<ColumnModel>) -> Seq<char>
    decreases cs.len(),
{
    if cs.len() == 0 {
        Seq::empty()
    } else {
        column_line(cs[0]) + columns_text(cs.skip(1))
    }
}

/// The text of a schema file.
pub open spec fn schema_text(m: SchemaModel) -> Seq<char> {
    m.table_name + seq!['\n'] + columns_text(m.columns)
}

/// Unicode's White_Space characters (what `char::is_whitespace` accepts).
pub open spec fn is_white_space(c: char) -> bool {
    let n = c as u32;
    (0x09 <= n <= 0x0d) || n == 0x20 || n == 0x85 || n == 0xa0 || n == 0x1680 || (0x2000 <= n
        <= 0x200a) || n == 0x2028 || n == 0x2029 || n == 0x202f || n == 0x205f || n == 0x3000
}

pub open spec fn trim_front(l: Seq<char>, i: int) -> int
    decreases l.len() - i,
{
    if 0 <= i < l.len() && is_white_space(l[i]) {
        trim_front(l, i + 1)
    } else {
        i
    }
}

pub open spec fn trim_back(l: Seq<char>, j: int) -> int
    decreases j,
{
    if 0 < j <= l.len() && is_white_space(l[j - 1]) {
        trim_back(l, j - 1)
    } else {
        j
    }
}

/// `l` without the white space at either end.
pub open spec fn trimmed(l: Seq<char>) -> Seq<char> {
    let a = trim_front(l, 0);
    let b = trim_back(l, l.len() as int);
    if a < b {
        l.subrange(a, b)
    } else {
        Seq::empty()
    }
}

pub open spec fn newline_end(s: Seq<char>, i: int) -> int
    decreases s.len() - i,
{
    if 0 <= i < s.len() && s[i] != '\n' {
        newline_end(s, i + 1)
    } else {
        i
    }
}

/// With `crlf`, a line that ends in `\r` loses it.
pub open spec fn strip_cr(l: Seq<char>, crlf: bool) -> Seq<char> {
    if crlf && l.len() > 0 && l.last() == '\r' {
        l.drop_last()
    } else {
        l
    }
}

/// The lines of `s` from position `i`: cut at each `\n`; with `crlf`, a line
/// that ends in `\r\n` loses both (schema files are read so); a final `\n`
/// starts no further line. Data files are cut at `\n` alone, so that a string
/// that ends in `\r` reads back unchanged.
pub open spec fn lines_from(s: Seq<char>, i: int, crlf: bool) -> Seq<Seq<char>>
    decreases s.len() - i,
{
    if i < 0 || i >= s.len() {
        Seq::empty()
    } else {
        let k = newline_end(s, i);
        if k >= s.len() || k < i {
            seq![s.subrange(i, s.len() as int)]
        } else {
            seq![strip_cr(s.subrange(i, k), crlf)] + lines_from(s, k + 1, crlf)
        }
    }
}

pub open spec fn count_colons(t: Seq<char>) -> nat
    decreases t.len(),
{
    if t.len() == 0 {
        0
    } else {
        count_colons(t.drop_last()) + if t.last() == ':' {
            1nat
        } else {
            0nat
        }
    }
}

pub open spec fn colon_at(t: Seq<char>, i: int) -> int
    decreases t.len() - i,
{
    if 0 <= i < t.len() && t[i] != ':' {
        colon_at(t, i + 1)
    } else {
        i
    }
}

/// A column line, already trimmed: exactly one `:`, between the name and a type.
pub open spec fn column_of_line(t: Seq<char>) -> Option<ColumnModel> {
    if count_colons(t) == 1 {
        let k = colon_at(t, 0);
        match type_of_text(t.skip(k + 1)) {
            Some(dt) => Some(ColumnModel { name: t.take(k), data_type: dt }),
            None => None,
        }
    } else {
        None
    }
}

/// The columns of the given lines; blank lines are skipped.
pub open spec fn columns_of_lines(ls: Seq<Seq<char>>) -> Option<Seq<ColumnModel>>
    decreases ls.len(),
{
    if ls.len() == 0 {
        Some(Seq::empty())
    } else {
        match columns_of_lines(ls.drop_last()) {
            Some(cs) => {
                let t = trimmed(ls.last());
                if t.len() == 0 {
                    Some(cs)
                } else {
                    match column_of_line(t) {
                        Some(c) => Some(cs.push(c)),
                        None => None,
                    }
                }
            },
            None => None,
        }
    }
}

/// The schema that a schema file's text gives for the table `name`; `None`
/// where the text is empty, names another table, or holds a malformed line.
pub open spec fn schema_of_text(name: Seq<char>, content: Seq<char>) -> Option<SchemaModel> {
    let ls = lines_from(content, 0, true);
    if ls.len() == 0 || ls[0] != name {
        None
    } else {
        match columns_of_lines(ls.skip(1)) {
            Some(cs) => Some(SchemaModel { table_name: name, columns: cs }),
            None => None,
        }
    }
}

/// The rows of a data file's text: each line that is not blank, decoded.
pub open spec fn rows_of_lines(ls: Seq<Seq<char>>) -> Option<Seq<Seq<ValueModel>>>
    decreases ls.len(),
{
    if ls.len() == 0 {
        Some(Seq::empty())
    } else {
        match rows_of_lines(ls.drop_last()) {
            Some(rs) => if trimmed(ls.last()).len() == 0 {
                Some(rs)
            } else {
                match decode_row(ls.last()) {
                    Some(r) => Some(rs.push(r)),
                    None => None,
                }
            },
            None => None,
        }
    }
}

pub open spec fn rows_of_text(content: Seq<char>) -> Option<Seq<Seq<ValueModel>>> {
    rows_of_lines(lines_from(content, 0, false))
}

} // verus!

verus! {

/// The text of a column type: `INT`, `VARCHAR` or `VARCHAR(n)`.
pub fn data_type_to_string(data_type: &DataType) -> (r: String)
    ensures
        r@ == type_text(*data_type),
{
    let mut s = String::new();
    proof {
        reveal_strlit("INT");
        reveal_strlit("VARCHAR");
    }
    match data_type {
        DataType::Int => {
            push_str(&mut s, "INT");
        },
        DataType::Varchar(None) => {
            push_str(&mut s, "VARCHAR");
        },
        DataType::Varchar(Some(n)) => {
            push_str(&mut s, "VARCHAR");
            push_char(&mut s, '(');
            crate::text::push_decimal(&mut s, *n as u64);
            push_char(&mut s, ')');
        },
    }
    assert(s@ =~= type_text(*data_type));
    s
}

fn type_from_chars(t: &Vec<char>) -> (r: Option<DataType>)
    ensures
        r == type_of_text(t@),
{
    proof {
        reveal_strlit("INT");
        reveal_strlit("VARCHAR");
        reveal_strlit("VARCHAR(");
        assert("INT"@ =~= seq!['I', 'N', 'T']);
        assert("VARCHAR"@ =~= varchar_text());
        assert("VARCHAR("@ =~= varchar_text() + seq!['(']);
    }
    let n = t.len();
    if n == 3 && matches_at(t, 0, "INT") {
        assert(t@ =~= t@.subrange(0, 3));
        return Some(DataType::Int);
    }
    assert(t@ != seq!['I', 'N', 'T']) by {
        if t@.len() == 3 {
            assert(t@ =~= t@.subrange(0, 3));
        }
    }
    if n == 7 && matches_at(t, 0, "VARCHAR") {
        assert(t@ =~= t@.subrange(0, 7));
        return Some(DataType::Varchar(None));
    }
    assert(t@ != varchar_text()) by {
        if t@.len() == 7 {
            assert(t@ =~= t@.subrange(0, 7));
        }
    }
    if n >= 9 && matches_at(t, 0, "VARCHAR(") && t[n - 1] == ')' {
        assert(t@.take(8) =~= t@.subrange(0, 8));
        let k: usize = if t[8] == '+' {
            9
        } else {
            8
        };
        let ghost inner = t@.subrange(8, n - 1);
        assert(inner.len() > 0 && inner[0] == '+' ==> inner.skip(1) =~= t@.subrange(9, n - 1));
        assert(!(inner.len() > 0 && inner[0] == '+') ==> inner =~= t@.subrange(8, n - 1));
        if k > n - 1 || k == n - 1 {
            return None;
        }
        if !crate::text::digits_in(t, k, n - 1) {
            return None;
        }
        let v = crate::text::digits_value_capped(t, k, n - 1, 0x1_0000_0000_0000_0000u128);
        if v <= usize::MAX as u128 {
            return Some(DataType::Varchar(Some(v as usize)));
        } else {
            return None;
        }
    }
    assert(!(t@.len() >= 9 && t@.take(8) == varchar_text() + seq!['('] && t@.last() == ')')) by {
        if t@.len() >= 9 {
            assert(t@.take(8) =~= t@.subrange(0, 8));
        }
    }
    None
}

/// Reads a column type's text (`INT`, `VARCHAR` or `VARCHAR(n)`).
pub fn parse_data_type(s: &str) -> (r: Result<DataType, StorageError>)
    ensures
        match r {
            Ok(dt) => type_of_text(s@) == Some(dt),
            Err(e) => type_of_text(s@) is None && e is InvalidSchema,
        },
{
    let t = chars_of(s);
    match type_from_chars(&t) {
        Some(dt) => Ok(dt),
        None => {
            let mut msg = String::new();
            push_str(&mut msg, "Unknown data type: ");
            push_str(&mut msg, s);
            Err(StorageError::InvalidSchema(msg))
        },
    }
}

/// The text of the schema file for `stmt`.
pub fn serialize_schema(stmt: &CreateTableStatement) -> (r: String)
    ensures
        r@ == schema_text(stmt@),
{
    let ghost cs = stmt@.columns;
    let ghost whole = stmt.table_name@ + seq!['\n'] + columns_text(cs);
    let mut out = stmt.table_name.clone();
    push_char(&mut out, '\n');
    let mut i: usize = 0;
    assert(cs.skip(0) =~= cs);
    assert(out@ + columns_text(cs.skip(0)) =~= whole);
    while i < stmt.columns.len()
        invariant
            i <= stmt.columns@.len(),
            cs == stmt@.columns,
            out@ + columns_text(cs.skip(i as int)) == whole,
        decreases stmt.columns@.len() - i,
    {
        let col = &stmt.columns[i];
        let ghost before = out@;
        crate::text::push_str(&mut out, col.name.as_str());
        push_char(&mut out, ':');
        let t = data_type_to_string(&col.data_type);
        push_str(&mut out, t.as_str());
        push_char(&mut out, '\n');
        proof {
            assert(cs.skip(i as int).skip(1) =~= cs.skip(i + 1));
            assert(cs.skip(i as int)[0] == col@);
            assert(out@ =~= before + column_line(col@));
            assert(out@ + columns_text(cs.skip(i + 1)) =~= before + columns_text(cs.skip(i as int)));
        }
        i = i + 1;
    }
    assert(cs.skip(stmt.columns@.len() as int) =~= Seq::<ColumnModel>::empty());
    assert(out@ + Seq::<char>::empty() =~= out@);
    out
}

fn split_lines(s: &Vec<char>, crlf: bool) -> (r: Vec<Vec<char>>)
    ensures
        models(r@) == lines_from(s@, 0, crlf),
{
    let n = s.len();
    let mut out: Vec<Vec<char>> = Vec::new();
    let mut i: usize = 0;
    while i < n
        invariant
            n == s@.len(),
            i <= n,
            models(out@) + lines_from(s@, i as int, crlf) == lines_from(s@, 0, crlf),
        decreases n - i,
    {
        let mut k = i;
        while k < n && s[k] != '\n'
            invariant
                i <= k <= n,
                n == s@.len(),
                newline_end(s@, k as int) == newline_end(s@, i as int),
            decreases n - k,
        {
            k = k + 1;
        }
        let ghost before = models(out@);
        if k == n {
            let line = crate::text::copy_range(s, i, n);
            out.push(line);
            assert(models(out@) =~= before + lines_from(s@, i as int, crlf));
            assert(lines_from(s@, n as int, crlf) =~= Seq::<Seq<char>>::empty());
            assert(models(out@) + lines_from(s@, n as int, crlf) =~= models(out@));
            i = n;
        } else {
            let end = if crlf && k > i && s[k - 1] == '\r' {
                k - 1
            } else {
                k
            };
            let line = crate::text::copy_range(s, i, end);
            proof {
                let l = s@.subrange(i as int, k as int);
                if crlf && k > i && s@[k - 1] == '\r' {
                    assert(strip_cr(l, crlf) =~= s@.subrange(i as int, end as int));
                } else {
                    assert(strip_cr(l, crlf) =~= s@.subrange(i as int, end as int));
                }
            }
            out.push(line);
            assert(models(out@) + lines_from(s@, k + 1, crlf) =~= before + lines_from(s@, i as int, crlf));
            i = k + 1;
        }
    }
    assert(lines_from(s@, i as int, crlf) =~= Seq::<Seq<char>>::empty());
    assert(models(out@) + lines_from(s@, i as int, crlf) =~= models(out@));
    out
}

fn trim_chars(l: &Vec<char>) -> (r: Vec<char>)
    ensures
        r@ == trimmed(l@),
{
    let n = l.len();
    let mut a: usize = 0;
    while a < n && crate::text::white_space_char(l[a])
        invariant
            a <= n == l@.len(),
            trim_front(l@, a as int) == trim_front(l@, 0),
        decreases n - a,
    {
        a = a + 1;
    }
    let mut b: usize = n;
    while b > 0 && crate::text::white_space_char(l[b - 1])
        invariant
            b <= n == l@.len(),
            trim_back(l@, b as int) == trim_back(l@, n as int),
        decreases b,
    {
        b = b - 1;
    }
    if a < b {
        crate::text::copy_range(l, a, b)
    } else {
        Vec::new()
    }
}

fn column_from_line(t: &Vec<char>) -> (r: Option<ColumnDefinition>)
    ensures
        match r {
            Some(c) => column_of_line(t@) == Some(c@),
            None => column_of_line(t@) is None,
        },
{
    let n = t.len();
    let mut count: usize = 0;
    let mut first: usize = n;
    let mut i: usize = 0;
    while i < n
        invariant
            i <= n == t@.len(),
            count == count_colons(t@.take(i as int)),
            count <= i,
            first <= n,
            count == 0 ==> first == n && colon_at(t@, 0) == colon_at(t@, i as int),
            count > 0 ==> first < i && colon_at(t@, 0) == first as int && t@[first as int] == ':',
        decreases n - i,
    {
        proof {
            assert(t@.take(i + 1).drop_last() =~= t@.take(i as int));
        }
        if t[i] == ':' {
            if count == 0 {
                first = i;
            }
            count = count + 1;
        }
        i = i + 1;
    }
    assert(t@.take(n as int) =~= t@);
    if count != 1 {
        return None;
    }
    let rest = crate::text::copy_range(t, first + 1, n);
    assert(rest@ =~= t@.skip(first + 1));
    match type_from_chars(&rest) {
        Some(dt) => {
            let name = crate::text::string_of_range(t, 0, first);
            assert(name@ =~= t@.take(first as int));
            Some(ColumnDefinition { name, data_type: dt })
        },
        None => None,
    }
}

proof fn lemma_columns_none(ls: Seq<Seq<char>>, k: int)
    requires
        0 <= k <= ls.len(),
        columns_of_lines(ls.take(k)) is None,
    ensures
        columns_of_lines(ls) is None,
    decreases ls.len() - k,
{
    if k < ls.len() {
        assert(ls.take(k + 1).drop_last() =~= ls.take(k));
        lemma_columns_none(ls, k + 1);
    } else {
        assert(ls.take(k) =~= ls);
    }
}

proof fn lemma_rows_none(ls: Seq<Seq<char>>, k: int)
    requires
        0 <= k <= ls.len(),
        rows_of_lines(ls.take(k)) is None,
    ensures
        rows_of_lines(ls) is None,
    decreases ls.len() - k,
{
    if k < ls.len() {
        assert(ls.take(k + 1).drop_last() =~= ls.take(k));
        lemma_rows_none(ls, k + 1);
    } else {
        assert(ls.take(k) =~= ls);
    }
}

/// Reads a schema file's text for the table `table_name`.
pub fn parse_schema(table_name: &str, content: &str) -> (r: Result<
    CreateTableStatement,
    StorageError,
>)
    ensures
        match r {
            Ok(stmt) => schema_of_text(table_name@, content@) == Some(stmt@),
            Err(e) => schema_of_text(table_name@, content@) is None && e is InvalidSchema,
        },
{
    let cs = chars_of(content);
    let lines = split_lines(&cs, true);
    let ghost ls = lines_from(content@, 0, true);
    if lines.len() == 0 {
        let mut msg = String::new();
        push_str(&mut msg, "Empty schema file");
        return Err(StorageError::InvalidSchema(msg));
    }
    let name = chars_of(table_name);
    assert(ls[0] == lines@[0]@);
    if lines[0].len() != name.len() || !crate::text::same_chars(&lines[0], &name) {
        let mut msg = String::new();
        push_str(&mut msg, "Table name mismatch: expected ");
        push_str(&mut msg, table_name);
        return Err(StorageError::InvalidSchema(msg));
    }
    let ghost rest = ls.skip(1);
    let mut columns: Vec<ColumnDefinition> = Vec::new();
    let mut i: usize = 1;
    while i < lines.len()
        invariant
            1 <= i <= lines@.len(),
            ls == models(lines@),
            ls == lines_from(content@, 0, true),
            ls[0] == table_name@,
            rest == ls.skip(1),
            columns_of_lines(rest.take(i - 1)) == Some(models(columns@)),
        decreases lines@.len() - i,
    {
        proof {
            assert(rest.take(i as int).drop_last() =~= rest.take(i - 1));
            assert(rest.take(i as int).last() == lines@[i as int]@);
        }
        let t = trim_chars(&lines[i]);
        if t.len() > 0 {
            match column_from_line(&t) {
                Some(c) => {
                    let ghost before = models(columns@);
                    columns.push(c);
                    assert(models(columns@) =~= before.push(c@));
                },
                None => {
                    proof {
                        let p = rest.take(i as int);
                        assert(trimmed(p.last()) == t@);
                        assert(column_of_line(t@) is None);
                        assert(columns_of_lines(p) is None);
                        lemma_columns_none(rest, i as int);
                    }
                    let mut msg = String::new();
                    push_str(&mut msg, "Invalid column definition: ");
                    let text = crate::text::string_of_range(&t, 0, t.len());
                    push_str(&mut msg, text.as_str());
                    return Err(StorageError::InvalidSchema(msg));
                },
            }
        }
        i = i + 1;
    }
    assert(rest.take(lines@.len() - 1) =~= rest);
    let mut tn = String::new();
    push_str(&mut tn, table_name);
    Ok(CreateTableStatement { table_name: tn, columns })
}

/// Reads the rows of a data file's text; blank lines are skipped.
pub fn decode_rows(content: &str) -> (r: Result<Vec<Vec<Value>>, StorageError>)
    ensures
        match r {
            Ok(rows) => rows_of_text(content@) == Some(rows@.map_values(
                |row: Vec<Value>| models(row@),
            )),
            Err(e) => rows_of_text(content@) is None && e is InvalidData,
        },
{
    let cs = chars_of(content);
    let lines = split_lines(&cs, false);
    let ghost ls = lines_from(content@, 0, false);
    let mut rows: Vec<Vec<Value>> = Vec::new();
    let mut i: usize = 0;
    while i < lines.len()
        invariant
            i <= lines@.len(),
            ls == models(lines@),
            ls == lines_from(content@, 0, false),
            rows_of_lines(ls.take(i as int)) == Some(
                rows@.map_values(|row: Vec<Value>| models(row@)),
            ),
        decreases lines@.len() - i,
    {
        proof {
            assert(ls.take(i + 1).drop_last() =~= ls.take(i as int));
            assert(ls.take(i + 1).last() == lines@[i as int]@);
        }
        let t = trim_chars(&lines[i]);
        if t.len() > 0 {
            match decode_row_chars(&lines[i]) {
                Ok(row) => {
                    let ghost before = rows@.map_values(|row: Vec<Value>| models(row@));
                    let ghost rm = models(row@);
                    rows.push(row);
                    assert(rows@.map_values(|row: Vec<Value>| models(row@)) =~= before.push(rm));
                },
                Err(e) => {
                    proof {
                        let p = ls.take(i + 1);
                        assert(trimmed(p.last()) == t@);
                        assert(decode_row(p.last()) is None);
                        assert(rows_of_lines(p) is None);
                        lemma_rows_none(ls, i + 1);
                    }
                    return Err(e);
                },
            }
        }
        i = i + 1;
    }
    assert(ls.take(lines@.len() as int) =~= ls);
    Ok(rows)
}

} // verus!

verus! {

// ---------------------------------------------------------------------------
// Schema round trip
// ---------------------------------------------------------------------------

proof fn lemma_newline_end_bounds(s: Seq<char>, i: int)
    requires
        0 <= i <= s.len(),
    ensures
        i <= newline_end(s, i) <= s.len(),
        newline_end(s, i) < s.len() ==> s[newline_end(s, i)] == '\n',
    decreases s.len() - i,
{
    if i < s.len() && s[i] != '\n' {
        lemma_newline_end_bounds(s, i + 1);
    }
}

proof fn lemma_newline_end_shift(p: Seq<char>, y: Seq<char>, j: int)
    requires
        0 <= j <= y.len(),
    ensures
        newline_end(p + y, p.len() + j) == p.len() + newline_end(y, j),
    decreases y.len() - j,
{
    if j < y.len() && y[j] != '\n' {
        lemma_newline_end_shift(p, y, j + 1);
    }
}

proof fn lemma_lines_shift(p: Seq<char>, y: Seq<char>, j: int, crlf: bool)
    requires
        0 <= j,
    ensures
        lines_from(p + y, p.len() + j, crlf) == lines_from(y, j, crlf),
    decreases y.len() - j,
{
    let s = p + y;
    if j < y.len() {
        lemma_newline_end_shift(p, y, j);
        lemma_newline_end_bounds(y, j);
        let k = newline_end(y, j);
        if k >= y.len() {
            assert(s.subrange(p.len() + j, s.len() as int) =~= y.subrange(j, y.len() as int));
        } else {
            assert(s.subrange(p.len() + j, p.len() + k) =~= y.subrange(j, k));
            lemma_lines_shift(p, y, k + 1, crlf);
        }
    }
}

proof fn lemma_newline_end_in(a: Seq<char>, rest: Seq<char>, i: int)
    requires
        0 <= i <= a.len(),
        forall|k: int| 0 <= k < a.len() ==> a[k] != '\n',
    ensures
        newline_end(a + seq!['\n'] + rest, i) == a.len(),
    decreases a.len() - i,
{
    let s = a + seq!['\n'] + rest;
    if i < a.len() {
        assert(s[i] == a[i]);
        lemma_newline_end_in(a, rest, i + 1);
    } else {
        assert(s[i] == '\n');
    }
}

/// A line that ends in a newline comes off the front of a text.
proof fn lemma_lines_cons(a: Seq<char>, rest: Seq<char>, crlf: bool)
    requires
        forall|k: int| 0 <= k < a.len() ==> a[k] != '\n',
        !(crlf && a.len() > 0 && a.last() == '\r'),
    ensures
        lines_from(a + seq!['\n'] + rest, 0, crlf) == seq![a] + lines_from(rest, 0, crlf),
{
    let p = a + seq!['\n'];
    let s = p + rest;
    assert(a + seq!['\n'] + rest == s);
    lemma_newline_end_in(a, rest, 0);
    assert(s.subrange(0, a.len() as int) =~= a);
    lemma_lines_shift(p, rest, 0, crlf);
}

pub open spec fn line_body(c: ColumnModel) -> Seq<char> {
    c.name + seq![':'] + type_text(c.data_type)
}

/// A name that a schema file stores and reads back unchanged.
pub open spec fn storable_column_name(n: Seq<char>) -> bool {
    &&& forall|k: int| 0 <= k < n.len() ==> n[k] != '\n' && n[k] != ':'
    &&& n.len() > 0 ==> !is_white_space(n[0])
}

pub open spec fn storable_table_name(n: Seq<char>) -> bool {
    &&& forall|k: int| 0 <= k < n.len() ==> n[k] != '\n'
    &&& !(n.len() > 0 && n.last() == '\r')
}

proof fn lemma_count_colons_concat(x: Seq<char>, y: Seq<char>)
    ensures
        count_colons(x + y) == count_colons(x) + count_colons(y),
    decreases y.len(),
{
    if y.len() == 0 {
        assert(x + y =~= x);
    } else {
        assert((x + y).drop_last() =~= x + y.drop_last());
        lemma_count_colons_concat(x, y.drop_last());
    }
}

proof fn lemma_no_colons(t: Seq<char>)
    requires
        forall|k: int| 0 <= k < t.len() ==> t[k] != ':',
    ensures
        count_colons(t) == 0,
    decreases t.len(),
{
    if t.len() > 0 {
        lemma_no_colons(t.drop_last());
    }
}

proof fn lemma_colon_at(b: Seq<char>, n: int, i: int)
    requires
        0 <= i <= n < b.len(),
        b[n] == ':',
        forall|k: int| 0 <= k < n ==> b[k] != ':',
    ensures
        colon_at(b, i) == n,
    decreases n - i,
{
    if i < n {
        lemma_colon_at(b, n, i + 1);
    }
}

proof fn lemma_type_text(dt: DataType)
    ensures
        type_text(dt).len() > 0,
        forall|k: int|
            0 <= k < type_text(dt).len() ==> #[trigger] type_text(dt)[k] != '\n' && type_text(
                dt,
            )[k] != ':',
        !is_white_space(type_text(dt).last()),
        type_text(dt).last() != '\r',
        type_of_text(type_text(dt)) == Some(dt),
{
    let t = type_text(dt);
    match dt {
        DataType::Int => {},
        DataType::Varchar(None) => {},
        DataType::Varchar(Some(n)) => {
            let d = decimal_nat(n as nat);
            crate::text::lemma_decimal_nat(n as nat);
            assert forall|k: int| 0 <= k < t.len() implies #[trigger] t[k] != '\n' && t[k] != ':' by {
                if 8 <= k < t.len() - 1 {
                    assert(t[k] == d[k - 8]);
                    assert(crate::text::is_digit(d[k - 8]));
                }
            }
            assert(t.take(8) =~= varchar_text() + seq!['(']);
            assert(t.subrange(8, t.len() - 1) =~= d);
            assert(t != seq!['I', 'N', 'T']) by {
                assert(t.len() != 3);
            }
            assert(t != varchar_text()) by {
                assert(t.len() != 7);
            }
        },
    }
}

proof fn lemma_column_line(c: ColumnModel)
    requires
        storable_column_name(c.name),
    ensures
        trimmed(line_body(c)) == line_body(c),
        line_body(c).len() > 0,
        column_of_line(line_body(c)) == Some(c),
        forall|k: int| 0 <= k < line_body(c).len() ==> line_body(c)[k] != '\n',
        line_body(c).last() != '\r',
{
    let b = line_body(c);
    let t = type_text(c.data_type);
    let n = c.name.len() as int;
    lemma_type_text(c.data_type);
    assert(b.last() == t.last());
    assert(!is_white_space(b[0])) by {
        if n == 0 {
            assert(b[0] == ':');
        } else {
            assert(b[0] == c.name[0]);
        }
    }
    assert(trim_front(b, 0) == 0);
    assert(trim_back(b, b.len() as int) == b.len());
    assert(b.subrange(0, b.len() as int) =~= b);
    assert forall|k: int| 0 <= k < b.len() implies b[k] != '\n' by {
        if k < n {
            assert(b[k] == c.name[k]);
        } else if k > n {
            assert(b[k] == t[k - n - 1]);
        }
    }
    lemma_no_colons(c.name);
    lemma_no_colons(t);
    lemma_count_colons_concat(c.name, seq![':']);
    lemma_count_colons_concat(c.name + seq![':'], t);
    assert(count_colons(seq![':']) == 1) by {
        let one = seq![':'];
        assert(one.drop_last() =~= Seq::<char>::empty());
        assert(one.last() == ':');
        assert(count_colons(one.drop_last()) == 0);
    }
    lemma_colon_at(b, n, 0);
    assert(b.take(n) =~= c.name);
    assert(b.skip(n + 1) =~= t);
}

proof fn lemma_columns_lines(cs: Seq<ColumnModel>)
    requires
        forall|k: int| 0 <= k < cs.len() ==> storable_column_name(#[trigger] cs[k].name),
    ensures
        lines_from(columns_text(cs), 0, true) =~= cs.map_values(|c: ColumnModel| line_body(c)),
    decreases cs.len(),
{
    if cs.len() > 0 {
        lemma_columns_lines(cs.skip(1));
        lemma_column_line(cs[0]);
        let b = line_body(cs[0]);
        assert(column_line(cs[0]) =~= b + seq!['\n']);
        assert(columns_text(cs) =~= b + seq!['\n'] + columns_text(cs.skip(1)));
        lemma_lines_cons(b, columns_text(cs.skip(1)), true);
    }
}

proof fn lemma_columns_of_bodies(cs: Seq<ColumnModel>)
    requires
        forall|k: int| 0 <= k < cs.len() ==> storable_column_name(#[trigger] cs[k].name),
    ensures
        columns_of_lines(cs.map_values(|c: ColumnModel| line_body(c))) == Some(cs),
    decreases cs.len(),
{
    if cs.len() > 0 {
        let ls = cs.map_values(|c: ColumnModel| line_body(c));
        assert(ls.drop_last() =~= cs.drop_last().map_values(|c: ColumnModel| line_body(c)));
        lemma_columns_of_bodies(cs.drop_last());
        lemma_column_line(cs.last());
        assert(cs.drop_last().push(cs.last()) =~= cs);
    } else {
        assert(cs =~= Seq::<ColumnModel>::empty());
    }
}

/// Writing a schema and reading it back for its table gives the same table
/// name and the same columns, in order, wherever the names can be stored:
/// no newline in any name, and a table name that does not end in `\r`; no `:`
/// in a column name, and none that starts with white space.
pub proof fn lemma_schema_round_trip(m: SchemaModel)
    requires
        storable_table_name(m.table_name),
        forall|k: int| 0 <= k < m.columns.len() ==> storable_column_name(#[trigger] m.columns[k].name),
    ensures
        schema_of_text(m.table_name, schema_text(m)) == Some(m),
{
    lemma_lines_cons(m.table_name, columns_text(m.columns), true);
    lemma_columns_lines(m.columns);
    lemma_columns_of_bodies(m.columns);
    let ls = lines_from(schema_text(m), 0, true);
    assert(ls.skip(1) =~= lines_from(columns_text(m.columns), 0, true));
}

} // verus!

verus! {

// ---------------------------------------------------------------------------
// Appending a row to a data file
// ---------------------------------------------------------------------------

pub open spec fn no_newline(t: Seq<char>) -> bool {
    forall|k: int| 0 <= k < t.len() ==> t[k] != '\n'
}

proof fn lemma_no_newline_concat(a: Seq<char>, b: Seq<char>)
    requires
        no_newline(a),
        no_newline(b),
    ensures
        no_newline(a + b),
{
    assert forall|k: int| 0 <= k < (a + b).len() implies (a + b)[k] != '\n' by {
        if k >= a.len() {
            assert((a + b)[k] == b[k - a.len()]);
        }
    }
}

proof fn lemma_escape_no_newline(s: Seq<char>)
    ensures
        no_newline(escape(s)),
    decreases s.len(),
{
    if s.len() > 0 {
        lemma_escape_no_newline(s.skip(1));
        lemma_no_newline_concat(escape_char(s[0]), escape(s.skip(1)));
    }
}

proof fn lemma_encode_value_no_newline(v: ValueModel)
    ensures
        no_newline(encode_value(v)),
        encode_value(v).len() > 0,
        !is_white_space(encode_value(v)[0]),
{
    match v {
        ValueModel::Int(n) => {
            let d = decimal_int(n as int);
            crate::text::lemma_decimal_nat(if n < 0 { (-n) as nat } else { n as nat });
            assert(no_newline(d)) by {
                assert forall|k: int| 0 <= k < d.len() implies d[k] != '\n' by {
                    if n < 0 && k > 0 {
                        assert(d[k] == decimal_nat((-n) as nat)[k - 1]);
                        assert(crate::text::is_digit(decimal_nat((-n) as nat)[k - 1]));
                    } else if n >= 0 {
                        assert(crate::text::is_digit(d[k]));
                    }
                }
            }
            lemma_no_newline_concat(int_tag(), d);
        },
        ValueModel::Str(s) => {
            lemma_escape_no_newline(s);
            lemma_no_newline_concat(string_tag(), escape(s));
        },
        ValueModel::Null => {},
    }
}

proof fn lemma_encode_row_line(vs: Seq<ValueModel>)
    requires
        vs.len() > 0,
    ensures
        no_newline(encode_row(vs)),
        encode_row(vs).len() > 0,
        encode_row(vs)[0] == encode_value(vs[0])[0],
    decreases vs.len(),
{
    lemma_encode_value_no_newline(vs.last());
    lemma_encode_value_no_newline(vs[0]);
    if vs.len() > 1 {
        let x = encode_row(vs.drop_last());
        lemma_encode_row_line(vs.drop_last());
        lemma_no_newline_concat(x, seq!['|']);
        lemma_no_newline_concat(x + seq!['|'], encode_value(vs.last()));
    }
}

proof fn lemma_trim_back_reaches(l: Seq<char>, j: int)
    requires
        1 <= j <= l.len(),
        !is_white_space(l[0]),
    ensures
        1 <= trim_back(l, j) <= j,
    decreases j,
{
    if j > 1 && is_white_space(l[j - 1]) {
        lemma_trim_back_reaches(l, j - 1);
    }
}

proof fn lemma_newline_end_prefix(p: Seq<char>, y: Seq<char>, i: int)
    requires
        0 <= i <= p.len(),
        newline_end(p, i) < p.len(),
    ensures
        newline_end(p + y, i) == newline_end(p, i),
    decreases p.len() - i,
{
    if i < p.len() && p[i] != '\n' {
        lemma_newline_end_prefix(p, y, i + 1);
    }
}

proof fn lemma_lines_append(p: Seq<char>, y: Seq<char>, i: int, crlf: bool)
    requires
        0 <= i <= p.len(),
        p.len() == 0 || p.last() == '\n',
    ensures
        lines_from(p + y, i, crlf) == lines_from(p, i, crlf) + lines_from(y, 0, crlf),
    decreases p.len() - i,
{
    if i == p.len() {
        lemma_lines_shift(p, y, 0, crlf);
        assert(lines_from(p, i, crlf) + lines_from(y, 0, crlf) =~= lines_from(y, 0, crlf));
    } else {
        lemma_newline_end_bounds(p, i);
        let k = newline_end(p, i);
        assert(k < p.len()) by {
            if k == p.len() {
                lemma_newline_end_stops(p, i, p.len() - 1);
            }
        }
        lemma_newline_end_prefix(p, y, i);
        assert((p + y).subrange(i, k) =~= p.subrange(i, k));
        lemma_lines_append(p, y, k + 1, crlf);
        assert(lines_from(p + y, i, crlf) =~= lines_from(p, i, crlf) + lines_from(y, 0, crlf));
    }
}

proof fn lemma_newline_end_stops(s: Seq<char>, i: int, m: int)
    requires
        0 <= i <= m < s.len(),
        s[m] == '\n',
    ensures
        newline_end(s, i) <= m,
    decreases m - i,
{
    if s[i] != '\n' {
        lemma_newline_end_stops(s, i + 1, m);
    }
}

/// Appending the line of a row, and a newline, to a data file that is empty
/// or ends in a newline, then reading the file, gives the rows it held
/// followed by that row (a row of at least one value).
pub proof fn lemma_append_row(old: Seq<char>, vs: Seq<ValueModel>)
    requires
        vs.len() > 0,
        old.len() == 0 || old.last() == '\n',
    ensures
        rows_of_text(old + encode_row(vs) + seq!['\n']) == match rows_of_text(old) {
            Some(rs) => Some(rs.push(vs)),
            None => None,
        },
{
    let line = encode_row(vs);
    lemma_encode_row_line(vs);
    lemma_encode_value_no_newline(vs[0]);
    lemma_row_round_trip(vs);
    let tail = line + seq!['\n'];
    assert(old + line + seq!['\n'] =~= old + tail);
    lemma_lines_append(old, tail, 0, false);
    assert(line + seq!['\n'] + Seq::<char>::empty() =~= tail);
    lemma_lines_cons(line, Seq::<char>::empty(), false);
    let ls = lines_from(old, 0, false);
    let all = ls + seq![line];
    assert(lines_from(old + tail, 0, false) =~= all);
    assert(all.drop_last() =~= ls);
    assert(all.last() == line);
    assert(trim_front(line, 0) == 0);
    lemma_trim_back_reaches(line, line.len() as int);
    let b = trim_back(line, line.len() as int);
    assert(trimmed(line) == line.subrange(0, b));
    assert(trimmed(line).len() > 0);
}

} // verus!
