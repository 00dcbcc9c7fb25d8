use vstd::prelude::*;

use crate::extra_data::extra_keys_ok;
use crate::extra_data::pairs_view;
use crate::extra_data::ExtraData;
use crate::json_value::JsonValue;
use crate::json_value::JsonValueSpec;
use crate::route_error_output::RouteErrorOutput;
use crate::route_error_output::RouteErrorOutputView;
use crate::route_internal_error_output::InternalErrorView;
use crate::route_internal_error_output::RouteInternalErrorOutput;
use vstd::string::StrSliceExecFns;
use vstd::string::StringExecFns;

verus! {

/// The lower-case hexadecimal digit for a value below sixteen.
pub open spec fn hex_digit(d: int) -> char {
    if d == 0 {
        '0'
    } else if d == 1 {
        '1'
    } else if d == 2 {
        '2'
    } else if d == 3 {
        '3'
    } else if d == 4 {
        '4'
    } else if d == 5 {
        '5'
    } else if d == 6 {
        '6'
    } else if d == 7 {
        '7'
    } else if d == 8 {
        '8'
    } else if d == 9 {
        '9'
    } else if d == 10 {
        'a'
    } else if d == 11 {
        'b'
    } else if d == 12 {
        'c'
    } else if d == 13 {
        'd'
    } else if d == 14 {
        'e'
    } else {
        'f'
    }
}

/// The escape sequence that a character contributes inside a JSON string:
/// `"` and `\` are escaped with a backslash, a control character becomes a
/// `\u00` hexadecimal escape, every other character stands for itself.
pub open spec fn esc_char(c: char) -> Seq<char> {
    if c == '"' {
        seq!['\\', '"']
    } else if c == '\\' {
        seq!['\\', '\\']
    } else if (c as u32) < 32 {
        seq![
            '\\',
            'u',
            '0',
            '0',
            hex_digit((c as u32) as int / 16),
            hex_digit((c as u32) as int % 16),
        ]
    } else {
        seq![c]
    }
}

/// The escaped form of a whole string.
pub open spec fn esc(s: Seq<char>) -> Seq<char>
    decreases s.len(),
{
    if s.len() == 0 {
        Seq::empty()
    } else {
        esc_char(s[0]) + esc(s.drop_first())
    }
}

/// A JSON string literal: the escaped text between double quotes.
pub open spec fn jstr(s: Seq<char>) -> Seq<char> {
    seq!['"'] + esc(s) + seq!['"']
}

/// The JSON rendering of a structured scalar.
pub open spec fn jval(v: JsonValueSpec) -> Seq<char> {
    match v {
        JsonValueSpec::Null => "null"@,
        JsonValueSpec::Bool(b) => if b {
            "true"@
        } else {
            "false"@
        },
        JsonValueSpec::Str(s) => jstr(s),
    }
}

/// One extra-data member as it appears in the body object, including the
/// comma that separates it from what precedes it.
pub open spec fn jpair(p: (Seq<char>, JsonValueSpec)) -> Seq<char> {
    seq![','] + jstr(p.0) + seq![':'] + jval(p.1)
}

/// The extra-data members of the body object, flattened at the top level.
pub open spec fn jpairs(ps: Seq<(Seq<char>, JsonValueSpec)>) -> Seq<char>
    decreases ps.len(),
{
    if ps.len() == 0 {
        Seq::empty()
    } else {
        jpair(ps[0]) + jpairs(ps.drop_first())
    }
}

/// The optional `internal_error` member of the body object.
pub open spec fn jinternal(i: Option<InternalErrorView>) -> Seq<char> {
    match i {
        None => Seq::empty(),
        Some(iv) => ",\"internal_error\":{\"name\":"@ + jstr(iv.name) + ",\"debug\":"@ + jstr(
            iv.debug,
        ) + seq!['}'],
    }
}

/// The canonical serialized body: a JSON object holding the mandatory
/// `error` string, then the `internal_error` object when a diagnostic is
/// exposed, then the extra-data members flattened at the top level.
pub open spec fn json_of_body(b: RouteErrorOutputView) -> Seq<char> {
    "{\"error\":"@ + jstr(b.error) + jinternal(b.internal_error) + (match b.extra_data {
        None => Seq::<char>::empty(),
        Some(ps) => jpairs(ps),
    }) + seq!['}']
}

/// Relies on `String::push` of std: appends exactly the given character.
#[verifier::external_body]
fn push_char(s: &mut String, c: char)
    ensures
        final(s)@ == old(s)@.push(c),
{
    s.push(c);
}

/// The lower-case hexadecimal digit character for a value below sixteen.
fn hex_digit_char(d: u32) -> (r: char)
    requires
        d < 16,
    ensures
        r == hex_digit(d as int),
{
    match d {
        0 => '0',
        1 => '1',
        2 => '2',
        3 => '3',
        4 => '4',
        5 => '5',
        6 => '6',
        7 => '7',
        8 => '8',
        9 => '9',
        10 => 'a',
        11 => 'b',
        12 => 'c',
        13 => 'd',
        14 => 'e',
        _ => 'f',
    }
}

/// The value of a lower-case hexadecimal digit character, when it is one.
fn hex_digit_value(c: char) -> (r: Option<u32>)
    ensures
        r matches Some(v) ==> v < 16 && hex_digit(v as int) == c,
        r is None ==> forall|d: int| 0 <= d < 16 ==> hex_digit(d) != c,
{
    match c {
        '0' => Some(0),
        '1' => Some(1),
        '2' => Some(2),
        '3' => Some(3),
        '4' => Some(4),
        '5' => Some(5),
        '6' => Some(6),
        '7' => Some(7),
        '8' => Some(8),
        '9' => Some(9),
        'a' => Some(10),
        'b' => Some(11),
        'c' => Some(12),
        'd' => Some(13),
        'e' => Some(14),
        'f' => Some(15),
        _ => None,
    }
}

/// Distinct values below sixteen have distinct hexadecimal digits.
proof fn lemma_hex_digit_injective(a: int, b: int)
    requires
        0 <= a < 16,
        0 <= b < 16,
        hex_digit(a) == hex_digit(b),
    ensures
        a == b,
{
}

/// Appending one character extends the escaped form by that character's
/// escape sequence.
proof fn lemma_esc_push(s: Seq<char>, c: char)
    ensures
        esc(s.push(c)) == esc(s) + esc_char(c),
    decreases s.len(),
{
    if s.len() == 0 {
        assert(s.push(c).drop_first() =~= Seq::<char>::empty());
        assert(s.push(c)[0] == c);
        assert(esc(Seq::<char>::empty()) =~= Seq::<char>::empty());
        assert(esc(s.push(c)) =~= esc_char(c));
        assert(esc(s) + esc_char(c) =~= esc_char(c));
    } else {
        assert(s.push(c).drop_first() =~= s.drop_first().push(c));
        lemma_esc_push(s.drop_first(), c);
        assert(esc(s.push(c)) =~= esc(s) + esc_char(c));
    }
}

/// Appends the escaped form of `s` to `out`.
fn append_escaped(out: &mut String, s: &str)
    ensures
        final(out)@ == old(out)@ + esc(s@),
{
    let n = s.unicode_len();
    let mut i: usize = 0;
    while i < n
        invariant
            i <= n,
            n == s@.len(),
            out@ == old(out)@ + esc(s@.take(i as int)),
        decreases n - i,
    {
        let c = s.get_char(i);
        if c == '"' {
            push_char(out, '\\');
            push_char(out, '"');
        } else if c == '\\' {
            push_char(out, '\\');
            push_char(out, '\\');
        } else if (c as u32) < 32 {
            let code: u32 = c as u32;
            push_char(out, '\\');
            push_char(out, 'u');
            push_char(out, '0');
            push_char(out, '0');
            push_char(out, hex_digit_char(code / 16));
            push_char(out, hex_digit_char(code % 16));
        } else {
            push_char(out, c);
        }
        proof {
            assert(s@.take(i + 1) =~= s@.take(i as int).push(s@[i as int]));
            lemma_esc_push(s@.take(i as int), s@[i as int]);
            assert(out@ =~= old(out)@ + esc(s@.take(i + 1)));
        }
        i += 1;
    }
    proof {
        assert(s@.take(n as int) =~= s@);
    }
}

/// Appends the JSON string literal for `s` to `out`.
fn append_jstr(out: &mut String, s: &str)
    ensures
        final(out)@ == old(out)@ + jstr(s@),
{
    push_char(out, '"');
    append_escaped(out, s);
    push_char(out, '"');
    proof {
        assert(out@ =~= old(out)@ + jstr(s@));
    }
}

/// Appends the JSON rendering of a structured scalar to `out`.
fn append_jval(out: &mut String, v: &JsonValue)
    ensures
        final(out)@ == old(out)@ + jval(v@),
{
    match v {
        JsonValue::Null => out.append("null"),
        JsonValue::Bool(b) => {
            if *b {
                out.append("true")
            } else {
                out.append("false")
            }
        },
        JsonValue::Str(s) => append_jstr(out, s.as_str()),
    }
}

/// Appends the flattened extra-data members to `out`.
fn append_jpairs(out: &mut String, d: &ExtraData)
    ensures
        final(out)@ == old(out)@ + jpairs(d@),
{
    let n = d.pairs.len();
    let mut i: usize = 0;
    while i < n
        invariant
            i <= n,
            n == d.pairs.len(),
            out@ == old(out)@ + jpairs(d@.take(i as int)),
        decreases n - i,
    {
        push_char(out, ',');
        append_jstr(out, d.pairs[i].0.as_str());
        push_char(out, ':');
        append_jval(out, &d.pairs[i].1);
        proof {
            assert(d@[i as int] == (d.pairs@[i as int].0@, d.pairs@[i as int].1@));
            assert(d@.take(i + 1) =~= d@.take(i as int).push(d@[i as int]));
            lemma_jpairs_push(d@.take(i as int), d@[i as int]);
            assert(out@ =~= old(out)@ + jpairs(d@.take(i + 1)));
        }
        i += 1;
    }
    proof {
        assert(d@.take(n as int) =~= d@);
    }
}

/// Appending one pair extends the flattened members by that pair's segment.
proof fn lemma_jpairs_push(ps: Seq<(Seq<char>, JsonValueSpec)>, p: (Seq<char>, JsonValueSpec))
    ensures
        jpairs(ps.push(p)) == jpairs(ps) + jpair(p),
    decreases ps.len(),
{
    if ps.len() == 0 {
        assert(ps.push(p).drop_first() =~= Seq::<(Seq<char>, JsonValueSpec)>::empty());
        assert(ps.push(p)[0] == p);
        assert(jpairs(Seq::<(Seq<char>, JsonValueSpec)>::empty()) =~= Seq::<char>::empty());
        assert(jpairs(ps.push(p)) =~= jpairs(ps) + jpair(p));
    } else {
        assert(ps.push(p).drop_first() =~= ps.drop_first().push(p));
        lemma_jpairs_push(ps.drop_first(), p);
        assert(jpairs(ps.push(p)) =~= jpairs(ps) + jpair(p));
    }
}

/// Extra data, when set, is merged flat into the top-level object: the
/// serialized body is the body without it, with the members appended just
/// before the closing brace, under no wrapper key.
pub proof fn lemma_extra_data_flattened(
    b: RouteErrorOutputView,
    ps: Seq<(Seq<char>, JsonValueSpec)>,
)
    requires
        b.extra_data == Some(ps),
    ensures
        json_of_body(b) == json_of_body(
            (RouteErrorOutputView { extra_data: None, ..b }),
        ).drop_last() + jpairs(ps) + seq!['}'],
{
    let bn = RouteErrorOutputView { extra_data: None, ..b };
    assert(json_of_body(bn).drop_last() =~= "{\"error\":"@ + jstr(b.error) + jinternal(
        b.internal_error,
    ));
    assert(json_of_body(b) =~= json_of_body(bn).drop_last() + jpairs(ps) + seq!['}']);
}

/// Two equal concatenations with the same prefix have the same remainder.
proof fn lemma_prepend_cancel(a: Seq<char>, x: Seq<char>, y: Seq<char>)
    requires
        a + x == a + y,
    ensures
        x == y,
{
    assert(x =~= (a + x).subrange(a.len() as int, (a + x).len() as int));
    assert(y =~= (a + y).subrange(a.len() as int, (a + y).len() as int));
}

/// An escape unit never starts with a double quote, starts with a backslash
/// exactly for the escaped characters, and determines its character.
proof fn lemma_esc_char_shape(c: char)
    ensures
        1 <= esc_char(c).len() <= 6,
        esc_char(c)[0] != '"',
        (c == '"' || c == '\\' || (c as u32) < 32) <==> esc_char(c)[0] == '\\',
        (c == '"' || c == '\\') ==> esc_char(c) == seq!['\\', c] && esc_char(c)[1] == c,
        (c as u32) < 32 ==> esc_char(c) == seq![
            '\\',
            'u',
            '0',
            '0',
            hex_digit((c as u32) as int / 16),
            hex_digit((c as u32) as int % 16),
        ] && esc_char(c)[1] == 'u',
        (c != '"' && c != '\\' && (c as u32) >= 32) ==> esc_char(c) == seq![c],
{
}

/// Two equal concatenations that both open with an escape unit carry the
/// same character in that unit.
proof fn lemma_esc_unit(c1: char, c2: char, x: Seq<char>, y: Seq<char>)
    requires
        esc_char(c1) + x == esc_char(c2) + y,
    ensures
        c1 == c2,
        x == y,
{
    lemma_esc_char_shape(c1);
    lemma_esc_char_shape(c2);
    let all = esc_char(c1) + x;
    assert(all[0] == esc_char(c1)[0]);
    assert(all[0] == esc_char(c2)[0]);
    if c1 == '"' || c1 == '\\' || (c1 as u32) < 32 {
        assert(esc_char(c2)[0] == '\\');
        assert(all[1] == esc_char(c1)[1]);
        assert(all[1] == esc_char(c2)[1]);
        if c1 == '"' || c1 == '\\' {
            assert(c1 == c2);
        } else {
            assert(esc_char(c2)[1] == 'u');
            assert((c2 as u32) < 32);
            assert(all[4] == esc_char(c1)[4]);
            assert(all[5] == esc_char(c1)[5]);
            assert(all[4] == esc_char(c2)[4]);
            assert(all[5] == esc_char(c2)[5]);
            lemma_hex_digit_injective((c1 as u32) as int / 16, (c2 as u32) as int / 16);
            lemma_hex_digit_injective((c1 as u32) as int % 16, (c2 as u32) as int % 16);
            assert((c1 as u32) == (c2 as u32));
            vstd::utf8::char_u32_cast(c1, c1 as u32);
            vstd::utf8::char_u32_cast(c2, c2 as u32);
            assert(c1 == c2);
        }
    } else {
        assert(esc_char(c1)[0] == c1);
        assert(esc_char(c2)[0] != '\\');
        assert(esc_char(c2)[0] == c2);
        assert(c1 == c2);
    }
    lemma_prepend_cancel(esc_char(c1), x, y);
}

/// If a text decomposes as an escaped string with its closing quote, then
/// whatever escaped prefix has been read is a prefix of that string, and the
/// remainder decomposes correspondingly.
proof fn lemma_esc_prefix_cases(t: Seq<char>, u: Seq<char>, w: Seq<char>, r: Seq<char>)
    requires
        esc(u) + w == esc(t) + seq!['"'] + r,
    ensures
        exists|t2: Seq<char>|
            t == u + t2 && w == esc(t2) + seq!['"'] + r,
    decreases u.len(),
{
    if u.len() == 0 {
        assert(esc(u) =~= Seq::<char>::empty());
        assert(w =~= esc(u) + w);
        assert(u + t =~= t);
        assert(t == u + t && w == esc(t) + seq!['"'] + r);
    } else {
        let all = esc(u) + w;
        lemma_esc_char_shape(u[0]);
        if t.len() == 0 {
            assert(esc(t) =~= Seq::<char>::empty());
            assert(all =~= seq!['"'] + r);
            assert(all =~= esc_char(u[0]) + (esc(u.drop_first()) + w));
            assert(all[0] == esc_char(u[0])[0]);
            assert(all[0] == '"');
            assert(false);
        } else {
            assert(all =~= esc_char(u[0]) + (esc(u.drop_first()) + w));
            assert(all =~= esc_char(t[0]) + (esc(t.drop_first()) + seq!['"'] + r));
            lemma_esc_unit(
                u[0],
                t[0],
                esc(u.drop_first()) + w,
                esc(t.drop_first()) + seq!['"'] + r,
            );
            lemma_esc_prefix_cases(t.drop_first(), u.drop_first(), w, r);
            let t2 = choose|t2: Seq<char>|
                t.drop_first() == u.drop_first() + t2 && w == esc(t2) + seq!['"'] + r;
            assert(t =~= seq![t[0]] + t.drop_first());
            assert(t =~= u + t2);
            assert(t == u + t2 && w == esc(t2) + seq!['"'] + r);
        }
    }
}

/// Escaped text followed by a closing quote decomposes in exactly one way.
proof fn lemma_esc_unamb(t1: Seq<char>, t2: Seq<char>, r1: Seq<char>, r2: Seq<char>)
    requires
        esc(t1) + seq!['"'] + r1 == esc(t2) + seq!['"'] + r2,
    ensures
        t1 == t2,
        r1 == r2,
    decreases t1.len(),
{
    let all = esc(t1) + seq!['"'] + r1;
    if t1.len() == 0 {
        assert(all[0] == '"');
        if t2.len() > 0 {
            lemma_esc_char_shape(t2[0]);
            assert(all =~= esc_char(t2[0]) + (esc(t2.drop_first()) + seq!['"'] + r2));
            assert(all[0] == esc_char(t2[0])[0]);
            assert(false);
        }
        assert(esc(t1) =~= Seq::<char>::empty());
        assert(esc(t2) =~= Seq::<char>::empty());
        assert(seq!['"'] + r1 =~= all);
        assert(seq!['"'] + r2 =~= all);
        lemma_prepend_cancel(seq!['"'], r1, r2);
        assert(t1 =~= t2);
    } else if t2.len() == 0 {
        lemma_esc_char_shape(t1[0]);
        assert(all =~= esc_char(t1[0]) + (esc(t1.drop_first()) + seq!['"'] + r1));
        assert(all[0] == esc_char(t1[0])[0]);
        assert(all =~= esc(t2) + seq!['"'] + r2);
        assert(esc(t2) =~= Seq::<char>::empty());
        assert(all[0] == '"');
        assert(false);
    } else {
        let c1 = t1[0];
        let c2 = t2[0];
        assert(all =~= esc_char(c1) + (esc(t1.drop_first()) + seq!['"'] + r1));
        assert(all =~= esc_char(c2) + (esc(t2.drop_first()) + seq!['"'] + r2));
        lemma_esc_unit(
            c1,
            c2,
            esc(t1.drop_first()) + seq!['"'] + r1,
            esc(t2.drop_first()) + seq!['"'] + r2,
        );
        lemma_esc_unamb(t1.drop_first(), t2.drop_first(), r1, r2);
        assert(t1 =~= seq![c1] + t1.drop_first());
        assert(t2 =~= seq![c2] + t2.drop_first());
        assert(t1 =~= t2);
    }
}

/// A JSON string literal followed by anything decomposes in exactly one way.
proof fn lemma_jstr_unamb(a: Seq<char>, b: Seq<char>, x: Seq<char>, y: Seq<char>)
    requires
        jstr(a) + x == jstr(b) + y,
    ensures
        a == b,
        x == y,
{
    assert(jstr(a) + x =~= seq!['"'] + (esc(a) + seq!['"'] + x));
    assert(jstr(b) + y =~= seq!['"'] + (esc(b) + seq!['"'] + y));
    lemma_prepend_cancel(seq!['"'], esc(a) + seq!['"'] + x, esc(b) + seq!['"'] + y);
    lemma_esc_unamb(a, b, x, y);
}

/// A rendered scalar is nonempty and starts with one of four characters,
/// which identify its constructor.
proof fn lemma_jval_first(v: JsonValueSpec)
    ensures
        jval(v).len() > 0,
        v is Str <==> jval(v)[0] == '"',
        v is Null ==> jval(v)[0] == 'n',
        v matches JsonValueSpec::Bool(b) ==> jval(v)[0] == (if b {
            't'
        } else {
            'f'
        }),
{
    reveal_strlit("null");
    reveal_strlit("true");
    reveal_strlit("false");
    match v {
        JsonValueSpec::Str(s) => {
            assert(jval(v)[0] == (seq!['"'] + esc(s) + seq!['"'])[0]);
        },
        _ => {},
    }
}

/// A rendered scalar followed by anything decomposes in exactly one way.
proof fn lemma_jval_unamb(u: JsonValueSpec, v: JsonValueSpec, x: Seq<char>, y: Seq<char>)
    requires
        jval(u) + x == jval(v) + y,
    ensures
        u == v,
        x == y,
{
    reveal_strlit("null");
    reveal_strlit("true");
    reveal_strlit("false");
    lemma_jval_first(u);
    lemma_jval_first(v);
    assert((jval(u) + x)[0] == jval(u)[0]);
    assert((jval(v) + y)[0] == jval(v)[0]);
    match (u, v) {
        (JsonValueSpec::Str(a), JsonValueSpec::Str(b)) => {
            lemma_jstr_unamb(a, b, x, y);
        },
        (JsonValueSpec::Null, JsonValueSpec::Null) => {
            lemma_prepend_cancel("null"@, x, y);
        },
        (JsonValueSpec::Bool(b1), JsonValueSpec::Bool(b2)) => {
            assert(b1 == b2);
            if b1 {
                lemma_prepend_cancel("true"@, x, y);
            } else {
                lemma_prepend_cancel("false"@, x, y);
            }
        },
        _ => {
            assert(false);
        },
    }
}

/// Flattened members followed by a non-member remainder decompose in exactly
/// one way.
proof fn lemma_jpairs_unamb(
    ps1: Seq<(Seq<char>, JsonValueSpec)>,
    ps2: Seq<(Seq<char>, JsonValueSpec)>,
    x: Seq<char>,
    y: Seq<char>,
)
    requires
        jpairs(ps1) + x == jpairs(ps2) + y,
        x.len() > 0 && x[0] != ',',
        y.len() > 0 && y[0] != ',',
    ensures
        ps1 == ps2,
        x == y,
    decreases ps1.len(),
{
    let all = jpairs(ps1) + x;
    if ps1.len() == 0 && ps2.len() == 0 {
        assert(jpairs(ps1) =~= Seq::<char>::empty());
        assert(x =~= all);
        assert(y =~= all);
        assert(ps1 =~= ps2);
    } else if ps1.len() == 0 {
        assert(jpairs(ps1) =~= Seq::<char>::empty());
        assert(all[0] == x[0]);
        assert(all =~= seq![','] + (jstr(ps2[0].0) + seq![':'] + jval(ps2[0].1) + (jpairs(
            ps2.drop_first(),
        ) + y)));
        assert(all[0] == ',');
        assert(false);
    } else if ps2.len() == 0 {
        assert(jpairs(ps2) =~= Seq::<char>::empty());
        assert(all[0] == y[0]);
        assert(all =~= seq![','] + (jstr(ps1[0].0) + seq![':'] + jval(ps1[0].1) + (jpairs(
            ps1.drop_first(),
        ) + x)));
        assert(all[0] == ',');
        assert(false);
    } else {
        let p1 = ps1[0];
        let p2 = ps2[0];
        assert(all =~= seq![','] + (jstr(p1.0) + (seq![':'] + jval(p1.1) + (jpairs(
            ps1.drop_first(),
        ) + x))));
        assert(all =~= seq![','] + (jstr(p2.0) + (seq![':'] + jval(p2.1) + (jpairs(
            ps2.drop_first(),
        ) + y))));
        lemma_prepend_cancel(
            seq![','],
            jstr(p1.0) + (seq![':'] + jval(p1.1) + (jpairs(ps1.drop_first()) + x)),
            jstr(p2.0) + (seq![':'] + jval(p2.1) + (jpairs(ps2.drop_first()) + y)),
        );
        lemma_jstr_unamb(
            p1.0,
            p2.0,
            seq![':'] + jval(p1.1) + (jpairs(ps1.drop_first()) + x),
            seq![':'] + jval(p2.1) + (jpairs(ps2.drop_first()) + y),
        );
        assert(seq![':'] + jval(p1.1) + (jpairs(ps1.drop_first()) + x) =~= seq![':'] + (jval(p1.1)
            + (jpairs(ps1.drop_first()) + x)));
        assert(seq![':'] + jval(p2.1) + (jpairs(ps2.drop_first()) + y) =~= seq![':'] + (jval(p2.1)
            + (jpairs(ps2.drop_first()) + y)));
        lemma_prepend_cancel(
            seq![':'],
            jval(p1.1) + (jpairs(ps1.drop_first()) + x),
            jval(p2.1) + (jpairs(ps2.drop_first()) + y),
        );
        lemma_jval_unamb(p1.1, p2.1, jpairs(ps1.drop_first()) + x, jpairs(ps2.drop_first()) + y);
        lemma_jpairs_unamb(ps1.drop_first(), ps2.drop_first(), x, y);
        assert(ps1 =~= seq![p1] + ps1.drop_first());
        assert(ps2 =~= seq![p2] + ps2.drop_first());
        assert(ps1 =~= ps2);
    }
}

/// Escaping text that holds neither a quote, a backslash, nor a control
/// character leaves it unchanged.
proof fn lemma_esc_identity(s: Seq<char>)
    requires
        forall|i: int| 0 <= i < s.len() ==> s[i] != '"' && s[i] != '\\' && (s[i] as u32) >= 32,
    ensures
        esc(s) == s,
    decreases s.len(),
{
    if s.len() == 0 {
        assert(esc(s) =~= s);
    } else {
        lemma_esc_identity(s.drop_first());
        assert(esc_char(s[0]) =~= seq![s[0]]);
        assert(esc(s) =~= seq![s[0]] + s.drop_first());
        assert(esc(s) =~= s);
    }
}

/// The opening of the `internal_error` member, decomposed into the member
/// separator, its key as a JSON string, the colon, and the opening of the
/// nested object.
proof fn lemma_internal_opening()
    ensures
        ",\"internal_error\":{\"name\":"@ == seq![','] + jstr("internal_error"@) + seq![':']
            + "{\"name\":"@,
        ",\"internal_error\":{\"name\":"@[0] == ',',
        "{\"name\":"@.len() == 8,
        "{\"name\":"@[0] == '{',
{
    reveal_strlit(",\"internal_error\":{\"name\":");
    reveal_strlit("internal_error");
    reveal_strlit("{\"name\":");
    assert forall|i: int| 0 <= i < "internal_error"@.len() implies "internal_error"@[i] != '"'
        && "internal_error"@[i] != '\\' && ("internal_error"@[i] as u32) >= 32 by {
        assert("internal_error"@.len() == 14);
    }
    lemma_esc_identity("internal_error"@);
    assert(",\"internal_error\":{\"name\":"@ =~= seq![','] + jstr("internal_error"@) + seq![':']
        + "{\"name\":"@);
}

/// An exposed internal diagnostic can never be read as a flattened
/// extra-data member: the member's scalar value cannot open an object.
proof fn lemma_internal_vs_pairs(
    iv: InternalErrorView,
    x: Seq<char>,
    qs: Seq<(Seq<char>, JsonValueSpec)>,
    y: Seq<char>,
)
    requires
        y.len() > 0 && y[0] != ',',
    ensures
        jinternal(Some(iv)) + x != jpairs(qs) + y,
{
    let tail = jstr(iv.name) + ",\"debug\":"@ + jstr(iv.debug) + seq!['}'] + x;
    assert(jinternal(Some(iv)) + x =~= ",\"internal_error\":{\"name\":"@ + tail);
    lemma_internal_opening_vs_pairs(tail, qs, y);
}

/// An `internal_error` member followed by anything decomposes in exactly
/// one way.
proof fn lemma_jinternal_some_unamb(
    iv1: InternalErrorView,
    iv2: InternalErrorView,
    x1: Seq<char>,
    x2: Seq<char>,
)
    requires
        jinternal(Some(iv1)) + x1 == jinternal(Some(iv2)) + x2,
    ensures
        iv1 == iv2,
        x1 == x2,
{
    let lit = ",\"internal_error\":{\"name\":"@;
    let dbg = ",\"debug\":"@;
    assert(jinternal(Some(iv1)) + x1 =~= lit + (jstr(iv1.name) + (dbg + (jstr(iv1.debug) + (
    seq!['}'] + x1)))));
    assert(jinternal(Some(iv2)) + x2 =~= lit + (jstr(iv2.name) + (dbg + (jstr(iv2.debug) + (
    seq!['}'] + x2)))));
    lemma_prepend_cancel(
        lit,
        jstr(iv1.name) + (dbg + (jstr(iv1.debug) + (seq!['}'] + x1))),
        jstr(iv2.name) + (dbg + (jstr(iv2.debug) + (seq!['}'] + x2))),
    );
    lemma_jstr_unamb(
        iv1.name,
        iv2.name,
        dbg + (jstr(iv1.debug) + (seq!['}'] + x1)),
        dbg + (jstr(iv2.debug) + (seq!['}'] + x2)),
    );
    lemma_prepend_cancel(dbg, jstr(iv1.debug) + (seq!['}'] + x1), jstr(iv2.debug) + (seq!['}']
        + x2));
    lemma_jstr_unamb(iv1.debug, iv2.debug, seq!['}'] + x1, seq!['}'] + x2);
    lemma_prepend_cancel(seq!['}'], x1, x2);
}

/// Text that opens the `internal_error` member can never be read as
/// flattened extra-data members: the first member's scalar value cannot
/// open an object.
proof fn lemma_internal_opening_vs_pairs(
    x: Seq<char>,
    qs: Seq<(Seq<char>, JsonValueSpec)>,
    y: Seq<char>,
)
    requires
        y.len() > 0 && y[0] != ',',
    ensures
        ",\"internal_error\":{\"name\":"@ + x != jpairs(qs) + y,
{
    if ",\"internal_error\":{\"name\":"@ + x != jpairs(qs) + y {
    } else if qs.len() == 0 {
        lemma_internal_opening();
        let lit = ",\"internal_error\":{\"name\":"@;
        let all = lit + x;
        assert(all[0] == lit[0]);
        assert(jpairs(qs) =~= Seq::<char>::empty());
        assert(all =~= y);
        assert(all[0] == y[0]);
        assert(false);
    } else {
        lemma_internal_opening();
        let lit = ",\"internal_error\":{\"name\":"@;
        let tail = x;
        let all = lit + x;
        assert(all[0] == lit[0]);
        let p = qs[0];
        assert(all =~= seq![','] + (jstr("internal_error"@) + (seq![':'] + ("{\"name\":"@
            + tail))));
        assert(all =~= seq![','] + (jstr(p.0) + (seq![':'] + (jval(p.1) + (jpairs(
            qs.drop_first(),
        ) + y)))));
        lemma_prepend_cancel(
            seq![','],
            jstr("internal_error"@) + (seq![':'] + ("{\"name\":"@ + tail)),
            jstr(p.0) + (seq![':'] + (jval(p.1) + (jpairs(qs.drop_first()) + y))),
        );
        lemma_jstr_unamb(
            "internal_error"@,
            p.0,
            seq![':'] + ("{\"name\":"@ + tail),
            seq![':'] + (jval(p.1) + (jpairs(qs.drop_first()) + y)),
        );
        lemma_prepend_cancel(
            seq![':'],
            "{\"name\":"@ + tail,
            jval(p.1) + (jpairs(qs.drop_first()) + y),
        );
        lemma_jval_first(p.1);
        assert(("{\"name\":"@ + tail)[0] == '{');
        assert((jval(p.1) + (jpairs(qs.drop_first()) + y))[0] == jval(p.1)[0]);
        reveal_strlit("null");
        reveal_strlit("true");
        reveal_strlit("false");
        assert(false);
    }
}

/// If a text decomposes as flattened members with the closing brace, then
/// whatever members have been read are a prefix of those members, and the
/// unread input still carries the rest.
proof fn lemma_jpairs_prefix(
    parsed: Seq<(Seq<char>, JsonValueSpec)>,
    qs: Seq<(Seq<char>, JsonValueSpec)>,
    w: Seq<char>,
)
    requires
        jpairs(parsed) + w == jpairs(qs) + seq!['}'],
    ensures
        exists|rest: Seq<(Seq<char>, JsonValueSpec)>|
            qs == parsed + rest && w == jpairs(rest) + seq!['}'],
    decreases parsed.len(),
{
    if parsed.len() == 0 {
        assert(jpairs(parsed) =~= Seq::<char>::empty());
        assert(w =~= jpairs(qs) + seq!['}']);
        assert(parsed + qs =~= qs);
        assert(qs == parsed + qs && w == jpairs(qs) + seq!['}']);
    } else {
        let all = jpairs(parsed) + w;
        let p1 = parsed[0];
        assert(all =~= seq![','] + (jstr(p1.0) + (seq![':'] + (jval(p1.1) + (jpairs(
            parsed.drop_first(),
        ) + w)))));
        if qs.len() == 0 {
            assert(jpairs(qs) =~= Seq::<char>::empty());
            assert(all =~= seq!['}']);
            assert(all[0] == ',');
            assert(false);
        } else {
            let p2 = qs[0];
            assert(all =~= seq![','] + (jstr(p2.0) + (seq![':'] + (jval(p2.1) + (jpairs(
                qs.drop_first(),
            ) + seq!['}'])))));
            lemma_prepend_cancel(
                seq![','],
                jstr(p1.0) + (seq![':'] + (jval(p1.1) + (jpairs(parsed.drop_first()) + w))),
                jstr(p2.0) + (seq![':'] + (jval(p2.1) + (jpairs(qs.drop_first()) + seq!['}']))),
            );
            lemma_jstr_unamb(
                p1.0,
                p2.0,
                seq![':'] + (jval(p1.1) + (jpairs(parsed.drop_first()) + w)),
                seq![':'] + (jval(p2.1) + (jpairs(qs.drop_first()) + seq!['}'])),
            );
            lemma_prepend_cancel(
                seq![':'],
                jval(p1.1) + (jpairs(parsed.drop_first()) + w),
                jval(p2.1) + (jpairs(qs.drop_first()) + seq!['}']),
            );
            lemma_jval_unamb(
                p1.1,
                p2.1,
                jpairs(parsed.drop_first()) + w,
                jpairs(qs.drop_first()) + seq!['}'],
            );
            lemma_jpairs_prefix(parsed.drop_first(), qs.drop_first(), w);
            let rest = choose|rest: Seq<(Seq<char>, JsonValueSpec)>|
                qs.drop_first() == parsed.drop_first() + rest && w == jpairs(rest) + seq!['}'];
            assert(qs =~= seq![qs[0]] + qs.drop_first());
            assert(qs =~= parsed + rest);
            assert(qs == parsed + rest && w == jpairs(rest) + seq!['}']);
        }
    }
}

/// The members of an extra-data payload, or nothing when none was set.
pub open spec fn extra_members(b: RouteErrorOutputView) -> Seq<(Seq<char>, JsonValueSpec)> {
    match b.extra_data {
        None => Seq::empty(),
        Some(ps) => ps,
    }
}

/// Canonical serialization is injective: two bodies with the same JSON text
/// hold the same message, the same diagnostic, and the same extra data.
/// With the parser's guarantee this is the round trip: decoding a serialized
/// body reproduces its content.  The one indistinguishable pair is an empty
/// extra-data payload against an absent one, which serialize alike; such
/// payloads are left out here.
#[verifier::rlimit(100)]
pub proof fn lemma_json_of_body_injective(b1: RouteErrorOutputView, b2: RouteErrorOutputView)
    requires
        json_of_body(b1) == json_of_body(b2),
        b1.extra_data matches Some(ps) ==> ps.len() > 0,
        b2.extra_data matches Some(ps) ==> ps.len() > 0,
    ensures
        b1.error == b2.error,
        b1.internal_error == b2.internal_error,
        b1.extra_data == b2.extra_data,
{
    let q1 = extra_members(b1);
    let q2 = extra_members(b2);
    if b1.extra_data is None {
        assert(jpairs(q1) =~= Seq::<char>::empty());
    }
    if b2.extra_data is None {
        assert(jpairs(q2) =~= Seq::<char>::empty());
    }
    let rest1 = jinternal(b1.internal_error) + (jpairs(q1) + seq!['}']);
    let rest2 = jinternal(b2.internal_error) + (jpairs(q2) + seq!['}']);
    assert(json_of_body(b1) =~= "{\"error\":"@ + (jstr(b1.error) + rest1));
    assert(json_of_body(b2) =~= "{\"error\":"@ + (jstr(b2.error) + rest2));
    lemma_prepend_cancel("{\"error\":"@, jstr(b1.error) + rest1, jstr(b2.error) + rest2);
    lemma_jstr_unamb(b1.error, b2.error, rest1, rest2);
    match (b1.internal_error, b2.internal_error) {
        (None, None) => {
            assert(rest1 =~= jpairs(q1) + seq!['}']);
            assert(rest2 =~= jpairs(q2) + seq!['}']);
            lemma_jpairs_unamb(q1, q2, seq!['}'], seq!['}']);
        },
        (Some(iv1), Some(iv2)) => {
            assert(rest1 =~= jinternal(Some(iv1)) + (jpairs(q1) + seq!['}']));
            assert(rest2 =~= jinternal(Some(iv2)) + (jpairs(q2) + seq!['}']));
            lemma_jinternal_some_unamb(iv1, iv2, jpairs(q1) + seq!['}'], jpairs(q2) + seq!['}']);
            lemma_jpairs_unamb(q1, q2, seq!['}'], seq!['}']);
        },
        (Some(iv1), None) => {
            assert(rest1 =~= jinternal(Some(iv1)) + (jpairs(q1) + seq!['}']));
            assert(rest2 =~= jpairs(q2) + seq!['}']);
            lemma_internal_vs_pairs(iv1, jpairs(q1) + seq!['}'], q2, seq!['}']);
        },
        (None, Some(iv2)) => {
            assert(rest2 =~= jinternal(Some(iv2)) + (jpairs(q2) + seq!['}']));
            assert(rest1 =~= jpairs(q1) + seq!['}']);
            lemma_internal_vs_pairs(iv2, jpairs(q2) + seq!['}'], q1, seq!['}']);
        },
    }
    if b1.extra_data is Some && b2.extra_data is Some {
        assert(b1.extra_data == b2.extra_data);
    }
}

/// Serializes a body into its canonical JSON text.
pub fn route_error_output_to_json(body: &RouteErrorOutput) -> (r: String)
    ensures
        r@ == json_of_body(body@),
{
    let mut out = String::from_str("{\"error\":");
    append_jstr(&mut out, body.error.as_str());
    match &body.internal_error {
        None => {},
        Some(i) => {
            out.append(",\"internal_error\":{\"name\":");
            append_jstr(&mut out, i.name.as_str());
            out.append(",\"debug\":");
            append_jstr(&mut out, i.debug.as_str());
            push_char(&mut out, '}');
        },
    }
    match &body.extra_data {
        None => {},
        Some(d) => append_jpairs(&mut out, d),
    }
    push_char(&mut out, '}');
    proof {
        assert(out@ =~= json_of_body(body@));
    }
    out
}

/// Matches the literal `lit` in `s` at position `i`; on success returns the
/// position just past it.
fn parse_lit(s: &str, i: usize, lit: &str) -> (r: Option<usize>)
    requires
        i <= s@.len(),
    ensures
        r matches Some(j) ==> i <= j <= s@.len() && s@.subrange(i as int, j as int) == lit@ && j
            == i + lit@.len(),
        r is None ==> !(i + lit@.len() <= s@.len() && s@.subrange(i as int, i + lit@.len())
            == lit@),
{
    let n = s.unicode_len();
    let m = lit.unicode_len();
    if n - i < m {
        return None;
    }
    let mut k: usize = 0;
    while k < m
        invariant
            k <= m,
            i + m <= n,
            n == s@.len(),
            m == lit@.len(),
            forall|t: int| 0 <= t < k ==> s@[i + t] == lit@[t],
        decreases m - k,
    {
        if s.get_char(i + k) != lit.get_char(k) {
            proof {
                if i + lit@.len() <= s@.len() && s@.subrange(i as int, i + lit@.len()) == lit@ {
                    assert(s@.subrange(i as int, i + lit@.len())[k as int] == s@[i + k]);
                }
            }
            return None;
        }
        k += 1;
    }
    proof {
        assert(s@.subrange(i as int, i + m) =~= lit@);
    }
    Some(i + m)
}

/// Relates an in-progress string parse to a hypothesized string literal in
/// the same input: the text read so far is a prefix of the hypothesized
/// text, and the unread input still carries the rest of the literal.
proof fn lemma_jstr_parse_state(
    s: Seq<char>,
    i: int,
    j: int,
    out: Seq<char>,
    t: Seq<char>,
    e: int,
) -> (t2: Seq<char>)
    requires
        0 <= i,
        i + 1 <= j <= s.len(),
        i <= e <= s.len(),
        s.subrange(i + 1, j) == esc(out),
        s.subrange(i, e) == jstr(t),
    ensures
        t == out + t2,
        s.subrange(j, s.len() as int) == esc(t2) + seq!['"'] + s.subrange(e, s.len() as int),
{
    assert(e - i == jstr(t).len());
    assert(jstr(t).len() == esc(t).len() + 2);
    assert(s.subrange(i + 1, e - 1) =~= esc(t)) by {
        assert forall|k: int| 0 <= k < e - 1 - (i + 1) implies s.subrange(i + 1, e - 1)[k] == esc(
            t,
        )[k] by {
            assert(s.subrange(i, e)[k + 1] == s[i + 1 + k]);
            assert(jstr(t)[k + 1] == esc(t)[k]);
        }
    }
    assert(s[e - 1] == '"') by {
        assert(s.subrange(i, e)[e - 1 - i] == s[e - 1]);
        assert(jstr(t)[esc(t).len() as int + 1] == '"');
    }
    assert(s.subrange(i + 1, s.len() as int) =~= s.subrange(i + 1, j) + s.subrange(
        j,
        s.len() as int,
    ));
    assert(s.subrange(i + 1, s.len() as int) =~= s.subrange(i + 1, e - 1) + seq![s[e - 1]]
        + s.subrange(e, s.len() as int));
    assert(esc(out) + s.subrange(j, s.len() as int) == esc(t) + seq!['"'] + s.subrange(
        e,
        s.len() as int,
    ));
    lemma_esc_prefix_cases(t, out, s.subrange(j, s.len() as int), s.subrange(e, s.len() as int));
    let t2 = choose|t2: Seq<char>|
        t == out + t2 && s.subrange(j, s.len() as int) == esc(t2) + seq!['"'] + s.subrange(
            e,
            s.len() as int,
        );
    t2
}

/// When a string parse stops on input that continues with none of the
/// canonical forms — end of input, a truncated or unknown escape, a
/// non-canonical hexadecimal escape, or a raw control character — no string
/// literal starts at the opening position at all.
#[verifier::rlimit(100)]
proof fn lemma_jstr_no_literal(s: Seq<char>, i: int, j: int, out: Seq<char>)
    requires
        0 <= i,
        i + 1 <= j <= s.len(),
        s.subrange(i + 1, j) == esc(out),
        j == s.len() || (s[j] == '\\' && (j + 1 == s.len() || (s[j + 1] != '"' && s[j + 1] != '\\'
            && s[j + 1] != 'u') || (s[j + 1] == 'u' && (j + 6 > s.len() || (forall|cc: char|
            (cc as u32) < 32 ==> s.subrange(j, j + 6) != esc_char(cc)))))) || (s[j] != '\\' && (
        s[j] as u32) < 32),
    ensures
        forall|t: Seq<char>, e: int| !(i <= e <= s.len() && s.subrange(i, e) == jstr(t)),
{
    assert forall|t: Seq<char>, e: int| !(i <= e <= s.len() && s.subrange(i, e) == jstr(t)) by {
        if i <= e <= s.len() && s.subrange(i, e) == jstr(t) {
            let t2 = lemma_jstr_parse_state(s, i, j, out, t, e);
            let w = s.subrange(j, s.len() as int);
            let rest = s.subrange(e, s.len() as int);
            if t2.len() == 0 {
                assert(esc(t2) =~= Seq::<char>::empty());
                assert(w =~= seq!['"'] + rest);
                assert(w.len() >= 1);
                assert(j < s.len());
                assert(w[0] == '"');
                assert(w[0] == s[j + 0]);
                assert(s[j] == '"');
                assert(false);
            } else {
                let c0 = t2[0];
                lemma_esc_char_shape(c0);
                assert(esc(t2) =~= esc_char(c0) + esc(t2.drop_first()));
                assert(w =~= esc_char(c0) + (esc(t2.drop_first()) + seq!['"'] + rest));
                assert(w.len() >= esc_char(c0).len() + 1);
                assert(j < s.len());
                assert(w[0] == esc_char(c0)[0]);
                assert(s[j] == w[0]);
                if c0 == '"' || c0 == '\\' {
                    assert(s[j] == '\\');
                    assert(w.len() >= 3);
                    assert(j + 1 < s.len());
                    assert(w[1] == esc_char(c0)[1]);
                    assert(s[j + 1] == w[1]);
                    assert(s[j + 1] == c0);
                    assert(false);
                } else if (c0 as u32) < 32 {
                    assert(s[j] == '\\');
                    assert(w.len() >= 7);
                    assert(j + 6 < s.len());
                    assert(w[1] == esc_char(c0)[1]);
                    assert(s[j + 1] == w[1]);
                    assert(s[j + 1] == 'u');
                    assert(s.subrange(j, j + 6) =~= esc_char(c0)) by {
                        assert forall|k: int| 0 <= k < 6 implies s.subrange(j, j + 6)[k]
                            == esc_char(c0)[k] by {
                            assert(w[k] == esc_char(c0)[k]);
                            assert(s.subrange(j, j + 6)[k] == s[j + k]);
                            assert(w[k] == s[j + k]);
                        }
                    }
                    assert(false);
                } else {
                    assert(s[j] == c0);
                    assert(false);
                }
            }
        }
    }
}

/// Parses a JSON string literal in `s` at position `i`, undoing the
/// canonical escaping; on success the consumed segment is exactly the
/// literal for the returned text.
#[verifier::rlimit(100)]
fn parse_jstr_at(s: &str, i: usize) -> (r: Option<(String, usize)>)
    requires
        i <= s@.len(),
    ensures
        r matches Some(p) ==> i + 2 <= p.1 <= s@.len() && s@.subrange(i as int, p.1 as int)
            == jstr(p.0@),
        r is None ==> forall|t: Seq<char>, e: int|
            !(i <= e <= s@.len() && s@.subrange(i as int, e) == jstr(t)),
{
    let n = s.unicode_len();
    if i >= n {
        proof {
            assert forall|t: Seq<char>, e: int|
                !(i <= e <= s@.len() && s@.subrange(i as int, e) == jstr(t)) by {
                if i <= e <= s@.len() && s@.subrange(i as int, e) == jstr(t) {
                    assert(e - i == jstr(t).len());
                    assert(jstr(t).len() >= 2);
                    assert(false);
                }
            }
        }
        return None;
    }
    if s.get_char(i) != '"' {
        proof {
            assert forall|t: Seq<char>, e: int|
                !(i <= e <= s@.len() && s@.subrange(i as int, e) == jstr(t)) by {
                if i <= e <= s@.len() && s@.subrange(i as int, e) == jstr(t) {
                    assert(e - i == jstr(t).len());
                    assert(jstr(t).len() >= 2);
                    assert(s@.subrange(i as int, e)[0] == s@[i as int]);
                    assert(jstr(t)[0] == '"');
                    assert(false);
                }
            }
        }
        return None;
    }
    let mut out = String::new();
    let mut j: usize = i + 1;
    while j < n
        invariant
            i + 1 <= j <= n,
            n == s@.len(),
            s@[i as int] == '"',
            s@.subrange(i + 1, j as int) == esc(out@),
        decreases n - j,
    {
        let c = s.get_char(j);
        if c == '"' {
            proof {
                assert(s@.subrange(i as int, j + 1) =~= seq!['"'] + esc(out@) + seq!['"']);
            }
            return Some((out, j + 1));
        } else if c == '\\' {
            if j + 1 >= n {
                proof {
                    lemma_jstr_no_literal(s@, i as int, j as int, out@);
                }
                return None;
            }
            let c2 = s.get_char(j + 1);
            let ghost out0 = out@;
            if c2 == '"' || c2 == '\\' {
                push_char(&mut out, c2);
                proof {
                    lemma_esc_push(out0, s@[j + 1]);
                    assert(esc_char(s@[j + 1]) =~= seq![s@[j as int], s@[j + 1]]);
                    assert(s@.subrange(i + 1, j + 2) =~= s@.subrange(i + 1, j as int) + seq![
                        s@[j as int],
                        s@[j + 1],
                    ]);
                    assert(s@.subrange(i + 1, j + 2) =~= esc(out@));
                }
                j += 2;
            } else if c2 == 'u' {
                if n - j < 6 {
                    proof {
                        lemma_jstr_no_literal(s@, i as int, j as int, out@);
                    }
                    return None;
                }
                if s.get_char(j + 2) != '0' || s.get_char(j + 3) != '0' {
                    proof {
                        assert forall|cc: char| (cc as u32) < 32 implies s@.subrange(
                            j as int,
                            j + 6,
                        ) != esc_char(cc) by {
                            lemma_esc_char_shape(cc);
                            if s@.subrange(j as int, j + 6) == esc_char(cc) {
                                assert(s@.subrange(j as int, j + 6)[2] == s@[j + 2]);
                                assert(s@.subrange(j as int, j + 6)[3] == s@[j + 3]);
                                assert(false);
                            }
                        }
                        lemma_jstr_no_literal(s@, i as int, j as int, out@);
                    }
                    return None;
                }
                let h1 = match hex_digit_value(s.get_char(j + 4)) {
                    Some(v) => v,
                    None => {
                        proof {
                            assert forall|cc: char| (cc as u32) < 32 implies s@.subrange(
                                j as int,
                                j + 6,
                            ) != esc_char(cc) by {
                                lemma_esc_char_shape(cc);
                                if s@.subrange(j as int, j + 6) == esc_char(cc) {
                                    assert(s@.subrange(j as int, j + 6)[4] == s@[j + 4]);
                                    assert(0 <= (cc as u32) as int / 16 < 16);
                                    assert(s@[j + 4] == hex_digit((cc as u32) as int / 16));
                                    assert(false);
                                }
                            }
                            lemma_jstr_no_literal(s@, i as int, j as int, out@);
                        }
                        return None
                    },
                };
                let h2 = match hex_digit_value(s.get_char(j + 5)) {
                    Some(v) => v,
                    None => {
                        proof {
                            assert forall|cc: char| (cc as u32) < 32 implies s@.subrange(
                                j as int,
                                j + 6,
                            ) != esc_char(cc) by {
                                lemma_esc_char_shape(cc);
                                if s@.subrange(j as int, j + 6) == esc_char(cc) {
                                    assert(s@.subrange(j as int, j + 6)[5] == s@[j + 5]);
                                    assert(0 <= (cc as u32) as int % 16 < 16);
                                    assert(s@[j + 5] == hex_digit((cc as u32) as int % 16));
                                    assert(false);
                                }
                            }
                            lemma_jstr_no_literal(s@, i as int, j as int, out@);
                        }
                        return None
                    },
                };
                let code: u32 = h1 * 16 + h2;
                if code >= 32 {
                    proof {
                        assert forall|cc: char| (cc as u32) < 32 implies s@.subrange(
                            j as int,
                            j + 6,
                        ) != esc_char(cc) by {
                            lemma_esc_char_shape(cc);
                            if s@.subrange(j as int, j + 6) == esc_char(cc) {
                                assert(s@.subrange(j as int, j + 6)[4] == s@[j + 4]);
                                assert(s@.subrange(j as int, j + 6)[5] == s@[j + 5]);
                                assert(s@[j + 4] == hex_digit((cc as u32) as int / 16));
                                assert(s@[j + 5] == hex_digit((cc as u32) as int % 16));
                                lemma_hex_digit_injective(h1 as int, (cc as u32) as int / 16);
                                lemma_hex_digit_injective(h2 as int, (cc as u32) as int % 16);
                                assert((cc as u32) as int == 16 * ((cc as u32) as int / 16) + (
                                (cc as u32) as int % 16));
                                assert(false);
                            }
                        }
                        lemma_jstr_no_literal(s@, i as int, j as int, out@);
                    }
                    return None;
                }
                let ch: char = (code as u8) as char;
                push_char(&mut out, ch);
                proof {
                    assert((ch as u32) == code);
                    assert(code as int / 16 == h1 as int && code as int % 16 == h2 as int)
                        by (nonlinear_arith)
                        requires
                            h1 < 2,
                            h2 < 16,
                            code == h1 * 16 + h2,
                    ;
                    assert(esc_char(ch) =~= seq!['\\', 'u', '0', '0', s@[j + 4], s@[j + 5]]);
                    lemma_esc_push(out0, ch);
                    assert(s@.subrange(i + 1, j + 6) =~= s@.subrange(i + 1, j as int) + seq![
                        s@[j as int],
                        s@[j + 1],
                        s@[j + 2],
                        s@[j + 3],
                        s@[j + 4],
                        s@[j + 5],
                    ]);
                    assert(s@.subrange(i + 1, j + 6) =~= esc(out@));
                }
                j += 6;
            } else {
                proof {
                    lemma_jstr_no_literal(s@, i as int, j as int, out@);
                }
                return None;
            }
        } else if (c as u32) < 32 {
            proof {
                lemma_jstr_no_literal(s@, i as int, j as int, out@);
            }
            return None;
        } else {
            let ghost out0 = out@;
            push_char(&mut out, c);
            proof {
                lemma_esc_push(out0, s@[j as int]);
                assert(esc_char(s@[j as int]) =~= seq![s@[j as int]]);
                assert(s@.subrange(i + 1, j + 1) =~= s@.subrange(i + 1, j as int).push(
                    s@[j as int],
                ));
                assert(s@.subrange(i + 1, j + 1) =~= esc(out@));
            }
            j += 1;
        }
    }
    proof {
        lemma_jstr_no_literal(s@, i as int, j as int, out@);
    }
    None
}

/// Parses a JSON scalar in `s` at position `i`; on failure no rendered
/// scalar starts there.
fn parse_jval_at(s: &str, i: usize) -> (r: Option<(JsonValue, usize)>)
    requires
        i <= s@.len(),
    ensures
        r matches Some(p) ==> i < p.1 <= s@.len() && s@.subrange(i as int, p.1 as int) == jval(
            p.0@,
        ),
        r is None ==> forall|v: JsonValueSpec, e: int|
            !(i <= e <= s@.len() && s@.subrange(i as int, e) == jval(v)),
{
    let n = s.unicode_len();
    if i >= n {
        proof {
            assert forall|v: JsonValueSpec, e: int|
                !(i <= e <= s@.len() && s@.subrange(i as int, e) == jval(v)) by {
                if i <= e <= s@.len() && s@.subrange(i as int, e) == jval(v) {
                    lemma_jval_first(v);
                    assert(e - i == jval(v).len());
                    assert(false);
                }
            }
        }
        return None;
    }
    let c = s.get_char(i);
    let r = if c == '"' {
        match parse_jstr_at(s, i) {
            Some((t, j)) => Some((JsonValue::Str(t), j)),
            None => None,
        }
    } else if c == 'n' {
        proof {
            reveal_strlit("null");
        }
        match parse_lit(s, i, "null") {
            Some(j) => Some((JsonValue::Null, j)),
            None => None,
        }
    } else if c == 't' {
        proof {
            reveal_strlit("true");
        }
        match parse_lit(s, i, "true") {
            Some(j) => Some((JsonValue::Bool(true), j)),
            None => None,
        }
    } else if c == 'f' {
        proof {
            reveal_strlit("false");
        }
        match parse_lit(s, i, "false") {
            Some(j) => Some((JsonValue::Bool(false), j)),
            None => None,
        }
    } else {
        None
    };
    proof {
        if r is None {
            assert forall|v: JsonValueSpec, e: int|
                !(i <= e <= s@.len() && s@.subrange(i as int, e) == jval(v)) by {
                if i <= e <= s@.len() && s@.subrange(i as int, e) == jval(v) {
                    lemma_jval_first(v);
                    assert(e - i == jval(v).len());
                    assert(s@.subrange(i as int, e)[0] == s@[i as int]);
                    assert(s@[i as int] == jval(v)[0]);
                    match v {
                        JsonValueSpec::Str(t) => {
                            assert(s@[i as int] == '"');
                        },
                        JsonValueSpec::Null => {
                            assert(s@[i as int] == 'n');
                            assert(e == i + "null"@.len());
                            assert(s@.subrange(i as int, i + "null"@.len()) == "null"@);
                        },
                        JsonValueSpec::Bool(b) => {
                            if b {
                                assert(s@[i as int] == 't');
                                assert(e == i + "true"@.len());
                                assert(s@.subrange(i as int, i + "true"@.len()) == "true"@);
                            } else {
                                assert(s@[i as int] == 'f');
                                assert(e == i + "false"@.len());
                                assert(s@.subrange(i as int, i + "false"@.len()) == "false"@);
                            }
                        },
                    }
                    assert(false);
                }
            }
        }
    }
    r
}

/// Splits off a known leading piece of a suffix decomposition: the piece
/// occupies the next positions of the input, and the rest follows it.
proof fn lemma_concat_prefix(s: Seq<char>, j: int, a: Seq<char>, x: Seq<char>)
    requires
        0 <= j <= s.len(),
        s.subrange(j, s.len() as int) == a + x,
    ensures
        j + a.len() <= s.len(),
        s.subrange(j, j + a.len() as int) == a,
        s.subrange(j + a.len() as int, s.len() as int) == x,
{
    assert(s.subrange(j, s.len() as int).len() == a.len() + x.len());
    assert(s.subrange(j, j + a.len() as int) =~= a) by {
        assert forall|k: int| 0 <= k < a.len() implies s.subrange(j, j + a.len() as int)[k]
            == a[k] by {
            assert(s.subrange(j, s.len() as int)[k] == a[k]);
            assert(s.subrange(j, s.len() as int)[k] == s[j + k]);
            assert(s.subrange(j, j + a.len() as int)[k] == s[j + k]);
        }
    }
    assert(s.subrange(j + a.len() as int, s.len() as int) =~= x) by {
        assert forall|k: int| 0 <= k < x.len() implies s.subrange(
            j + a.len() as int,
            s.len() as int,
        )[k] == x[k] by {
            assert(s.subrange(j, s.len() as int)[a.len() + k] == x[k]);
            assert(s.subrange(j, s.len() as int)[a.len() + k] == s[j + a.len() + k]);
            assert(s.subrange(j + a.len() as int, s.len() as int)[k] == s[j + a.len() + k]);
        }
    }
}

/// A canonical body text opens with the `error` field, and its remainder is
/// the message string, the internal member, and the flattened members with
/// the closing brace.
proof fn lemma_body_opening(s: Seq<char>, b: RouteErrorOutputView)
    requires
        s == json_of_body(b),
    ensures
        s.len() >= "{\"error\":"@.len(),
        s.subrange(0, "{\"error\":"@.len() as int) == "{\"error\":"@,
        s.subrange("{\"error\":"@.len() as int, s.len() as int) == jstr(b.error) + (jinternal(
            b.internal_error,
        ) + (jpairs(extra_members(b)) + seq!['}'])),
{
    if b.extra_data is None {
        assert(jpairs(extra_members(b)) =~= Seq::<char>::empty());
    }
    let tail = jstr(b.error) + (jinternal(b.internal_error) + (jpairs(extra_members(b))
        + seq!['}']));
    assert(s =~= "{\"error\":"@ + tail);
    assert(s.subrange(0, s.len() as int) =~= s);
    lemma_concat_prefix(s, 0, "{\"error\":"@, tail);
}

/// Holds when `s` is the canonical serialization of the body `b` and the
/// extra-data keys of `b` are distinct and unreserved.  Such texts are
/// exactly what the parser accepts.
pub open spec fn canonical_body_of(s: Seq<char>, b: RouteErrorOutputView) -> bool {
    s == json_of_body(b) && (b.extra_data matches Some(ps) ==> extra_keys_ok(ps))
}

/// Aligns a parse in progress with a hypothesized body for the same input:
/// once the opening, the message string, and the internal member have been
/// read, the hypothesized body agrees with them, and the unread input
/// carries exactly its flattened members and the closing brace.
#[verifier::rlimit(100)]
proof fn lemma_body_alignment(
    s: Seq<char>,
    b: RouteErrorOutputView,
    j0: int,
    j1: int,
    j2: int,
    errorv: Seq<char>,
    iview: Option<InternalErrorView>,
)
    requires
        s == json_of_body(b),
        0 <= j0 <= j1 <= j2 <= s.len(),
        s.subrange(0, j0) == "{\"error\":"@,
        s.subrange(j0, j1) == jstr(errorv),
        s.subrange(j1, j2) == jinternal(iview),
        iview is None ==> !(j1 + ",\"internal_error\":{\"name\":"@.len() <= s.len()
            && s.subrange(j1, j1 + ",\"internal_error\":{\"name\":"@.len())
            == ",\"internal_error\":{\"name\":"@),
    ensures
        b.error == errorv,
        b.internal_error == iview,
        s.subrange(j2, s.len() as int) == jpairs(extra_members(b)) + seq!['}'],
{
    let qb = extra_members(b);
    if b.extra_data is None {
        assert(jpairs(qb) =~= Seq::<char>::empty());
    }
    let body_tail = jstr(b.error) + (jinternal(b.internal_error) + (jpairs(qb) + seq!['}']));
    assert(s =~= "{\"error\":"@ + body_tail);
    assert(s =~= s.subrange(0, j0) + s.subrange(j0, s.len() as int));
    lemma_prepend_cancel("{\"error\":"@, s.subrange(j0, s.len() as int), body_tail);
    assert(s.subrange(j0, s.len() as int) =~= s.subrange(j0, j1) + s.subrange(
        j1,
        s.len() as int,
    ));
    lemma_jstr_unamb(
        errorv,
        b.error,
        s.subrange(j1, s.len() as int),
        jinternal(b.internal_error) + (jpairs(qb) + seq!['}']),
    );
    assert(s.subrange(j1, s.len() as int) =~= s.subrange(j1, j2) + s.subrange(
        j2,
        s.len() as int,
    ));
    let lit = ",\"internal_error\":{\"name\":"@;
    let dbg = ",\"debug\":"@;
    match (iview, b.internal_error) {
        (None, None) => {
            assert(jinternal(iview) =~= Seq::<char>::empty());
            assert(j1 == j2);
            assert(s.subrange(j2, s.len() as int) == jpairs(qb) + seq!['}']);
        },
        (Some(iv1), Some(iv2)) => {
            let x1 = s.subrange(j2, s.len() as int);
            let x2 = jpairs(qb) + seq!['}'];
            lemma_jinternal_some_unamb(iv1, iv2, x1, x2);
        },
        (None, Some(iv2)) => {
            assert(jinternal(iview) =~= Seq::<char>::empty());
            assert(j1 == j2);
            assert(s.subrange(j1, s.len() as int) =~= lit + (jstr(iv2.name) + (dbg + (jstr(
                iv2.debug,
            ) + (seq!['}'] + (jpairs(qb) + seq!['}']))))));
            assert(j1 + lit.len() <= s.len());
            assert(s.subrange(j1, j1 + lit.len() as int) =~= lit) by {
                assert forall|k: int| 0 <= k < lit.len() implies s.subrange(
                    j1,
                    j1 + lit.len() as int,
                )[k] == lit[k] by {
                    assert(s.subrange(j1, s.len() as int)[k] == lit[k]);
                    assert(s.subrange(j1, s.len() as int)[k] == s[j1 + k]);
                    assert(s.subrange(j1, j1 + lit.len() as int)[k] == s[j1 + k]);
                }
            }
            assert(false);
        },
        (Some(iv1), None) => {
            lemma_internal_vs_pairs(iv1, s.subrange(j2, s.len() as int), qb, seq!['}']);
            assert(false);
        },
    }
}

/// Aligns a parse that has read the opening and the message string with a
/// hypothesized body for the same input: the message agrees, and the unread
/// input carries the internal member, the flattened members, and the
/// closing brace.
proof fn lemma_after_error_field(
    s: Seq<char>,
    b: RouteErrorOutputView,
    j0: int,
    j1: int,
    errorv: Seq<char>,
) -> (x: Seq<char>)
    requires
        s == json_of_body(b),
        0 <= j0 <= j1 <= s.len(),
        s.subrange(0, j0) == "{\"error\":"@,
        s.subrange(j0, j1) == jstr(errorv),
    ensures
        b.error == errorv,
        x == jpairs(extra_members(b)) + seq!['}'],
        s.subrange(j1, s.len() as int) == jinternal(b.internal_error) + x,
{
    lemma_body_opening(s, b);
    assert(j0 == "{\"error\":"@.len());
    assert(s.subrange(j0, s.len() as int) =~= s.subrange(j0, j1) + s.subrange(
        j1,
        s.len() as int,
    ));
    lemma_jstr_unamb(
        errorv,
        b.error,
        s.subrange(j1, s.len() as int),
        jinternal(b.internal_error) + (jpairs(extra_members(b)) + seq!['}']),
    );
    jpairs(extra_members(b)) + seq!['}']
}

/// When the `internal_error` member has been opened but its name, debug
/// text, or closing brace cannot be read canonically, no canonical body
/// matches the input.
#[verifier::rlimit(100)]
proof fn lemma_internal_site(
    s: Seq<char>,
    j0: int,
    j1: int,
    errorv: Seq<char>,
    ja: int,
    namev: Seq<char>,
    jb: int,
    jc: int,
    debugv: Seq<char>,
    jd: int,
)
    requires
        0 <= j0 <= j1 <= ja <= s.len(),
        s.subrange(0, j0) == "{\"error\":"@,
        s.subrange(j0, j1) == jstr(errorv),
        ja == j1 + ",\"internal_error\":{\"name\":"@.len(),
        s.subrange(j1, ja) == ",\"internal_error\":{\"name\":"@,
        (forall|t: Seq<char>, e: int|
            #![trigger s.subrange(ja, e), jstr(t)]
            !(ja <= e <= s.len() && s.subrange(ja, e) == jstr(t))) || (
        ja <= jb <= s.len() && s.subrange(ja, jb) == jstr(namev) && (!(jb + ",\"debug\":"@.len()
            <= s.len() && s.subrange(jb, jb + ",\"debug\":"@.len()) == ",\"debug\":"@) || (jc == jb
            + ",\"debug\":"@.len() && s.subrange(jb, jc) == ",\"debug\":"@ && ((forall|
            t: Seq<char>,
            e: int,
        |
            #![trigger s.subrange(jc, e), jstr(t)]
            !(jc <= e <= s.len() && s.subrange(jc, e) == jstr(t))) || (jc <= jd <= s.len()
            && s.subrange(jc, jd) == jstr(debugv) && (jd == s.len() || s[jd] != '}')))))),
    ensures
        forall|b: RouteErrorOutputView| !canonical_body_of(s, b),
{
    assert forall|b: RouteErrorOutputView| !canonical_body_of(s, b) by {
        if canonical_body_of(s, b) {
            let x = lemma_after_error_field(s, b, j0, j1, errorv);
            match b.internal_error {
                None => {
                    assert(jinternal(b.internal_error) =~= Seq::<char>::empty());
                    assert(s.subrange(j1, s.len() as int) =~= s.subrange(j1, ja) + s.subrange(
                        ja,
                        s.len() as int,
                    ));
                    lemma_internal_opening_vs_pairs(
                        s.subrange(ja, s.len() as int),
                        extra_members(b),
                        seq!['}'],
                    );
                    assert(false);
                },
                Some(iv) => {
                    assert(jinternal(Some(iv)) + x =~= ",\"internal_error\":{\"name\":"@ + (jstr(
                    iv.name) + (",\"debug\":"@ + (jstr(iv.debug) + (seq!['}'] + x)))));
                    lemma_concat_prefix(
                        s,
                        j1,
                        ",\"internal_error\":{\"name\":"@,
                        jstr(iv.name) + (",\"debug\":"@ + (jstr(iv.debug) + (seq!['}'] + x))),
                    );
                    lemma_concat_prefix(
                        s,
                        ja,
                        jstr(iv.name),
                        ",\"debug\":"@ + (jstr(iv.debug) + (seq!['}'] + x)),
                    );
                    if forall|t: Seq<char>, e: int|
                        !(ja <= e <= s.len() && s.subrange(ja, e) == jstr(t)) {
                        assert(false);
                    } else {
                        assert(s.subrange(ja, s.len() as int) =~= s.subrange(ja, jb)
                            + s.subrange(jb, s.len() as int));
                        lemma_jstr_unamb(
                            namev,
                            iv.name,
                            s.subrange(jb, s.len() as int),
                            ",\"debug\":"@ + (jstr(iv.debug) + (seq!['}'] + x)),
                        );
                        lemma_concat_prefix(
                            s,
                            jb,
                            ",\"debug\":"@,
                            jstr(iv.debug) + (seq!['}'] + x),
                        );
                        if !(jc == jb + ",\"debug\":"@.len() && s.subrange(jb, jc)
                            == ",\"debug\":"@) {
                            assert(false);
                        } else {
                            lemma_concat_prefix(s, jc, jstr(iv.debug), seq!['}'] + x);
                            if forall|t: Seq<char>, e: int|
                                !(jc <= e <= s.len() && s.subrange(jc, e) == jstr(t)) {
                                assert(false);
                            } else {
                                assert(s.subrange(jc, s.len() as int) =~= s.subrange(jc, jd)
                                    + s.subrange(jd, s.len() as int));
                                lemma_jstr_unamb(
                                    debugv,
                                    iv.debug,
                                    s.subrange(jd, s.len() as int),
                                    seq!['}'] + x,
                                );
                                assert(s.subrange(jd, s.len() as int)[0] == s[jd + 0]);
                                assert(s[jd] == '}');
                                assert(false);
                            }
                        }
                    }
                },
            }
        }
    }
}

/// When the member loop stops on input that opens no further member and no
/// well-placed closing brace, no canonical body matches the input.
#[verifier::rlimit(100)]
proof fn lemma_pairs_site(
    s: Seq<char>,
    j0: int,
    j1: int,
    j2: int,
    errorv: Seq<char>,
    iview: Option<InternalErrorView>,
    parsedv: Seq<(Seq<char>, JsonValueSpec)>,
    j: int,
)
    requires
        0 <= j0 <= j1 <= j2 <= j <= s.len(),
        s.subrange(0, j0) == "{\"error\":"@,
        s.subrange(j0, j1) == jstr(errorv),
        s.subrange(j1, j2) == jinternal(iview),
        iview is None ==> !(j1 + ",\"internal_error\":{\"name\":"@.len() <= s.len()
            && s.subrange(j1, j1 + ",\"internal_error\":{\"name\":"@.len())
            == ",\"internal_error\":{\"name\":"@),
        s.subrange(j2, j) == jpairs(parsedv),
        j == s.len() || (s[j] != ',' && s[j] != '}') || (s[j] == '}' && j + 1 != s.len()) || (
        s[j] == ',' && (forall|t: Seq<char>, e: int|
            #![trigger s.subrange(j + 1, e), jstr(t)]
            !(j + 1 <= e <= s.len() && s.subrange(j + 1, e) == jstr(t)))),
    ensures
        forall|b: RouteErrorOutputView| !canonical_body_of(s, b),
{
    assert forall|b: RouteErrorOutputView| !canonical_body_of(s, b) by {
        if canonical_body_of(s, b) {
            lemma_body_alignment(s, b, j0, j1, j2, errorv, iview);
            assert(s.subrange(j2, s.len() as int) =~= s.subrange(j2, j) + s.subrange(
                j,
                s.len() as int,
            ));
            lemma_jpairs_prefix(parsedv, extra_members(b), s.subrange(j, s.len() as int));
            let rest = choose|rest: Seq<(Seq<char>, JsonValueSpec)>|
                extra_members(b) == parsedv + rest && s.subrange(j, s.len() as int) == jpairs(
                    rest,
                ) + seq!['}'];
            if rest.len() == 0 {
                assert(jpairs(rest) =~= Seq::<char>::empty());
                assert(s.subrange(j, s.len() as int) =~= seq!['}']);
                assert(s.subrange(j, s.len() as int)[0] == s[j + 0]);
                assert(s[j] == '}');
                assert(s.len() - j == 1);
                assert(false);
            } else {
                assert(jpairs(rest) + seq!['}'] =~= seq![','] + (jstr(rest[0].0) + (seq![':'] + (
                jval(rest[0].1) + (jpairs(rest.drop_first()) + seq!['}'])))));
                assert(s.subrange(j, s.len() as int)[0] == s[j + 0]);
                assert(s[j] == ',');
                lemma_concat_prefix(
                    s,
                    j,
                    seq![','],
                    jstr(rest[0].0) + (seq![':'] + (jval(rest[0].1) + (jpairs(rest.drop_first())
                        + seq!['}']))),
                );
                lemma_concat_prefix(
                    s,
                    j + 1,
                    jstr(rest[0].0),
                    seq![':'] + (jval(rest[0].1) + (jpairs(rest.drop_first()) + seq!['}'])),
                );
                assert(false);
            }
        }
    }
}

/// When the member loop has read a member key that is duplicated or
/// reserved, or finds no colon and scalar after it, no canonical body
/// matches the input.
#[verifier::rlimit(100)]
proof fn lemma_pairs_key_site(
    s: Seq<char>,
    j0: int,
    j1: int,
    j2: int,
    errorv: Seq<char>,
    iview: Option<InternalErrorView>,
    parsedv: Seq<(Seq<char>, JsonValueSpec)>,
    j: int,
    keyv: Seq<char>,
    ka: int,
)
    requires
        0 <= j0 <= j1 <= j2 <= j < s.len(),
        s.subrange(0, j0) == "{\"error\":"@,
        s.subrange(j0, j1) == jstr(errorv),
        s.subrange(j1, j2) == jinternal(iview),
        iview is None ==> !(j1 + ",\"internal_error\":{\"name\":"@.len() <= s.len()
            && s.subrange(j1, j1 + ",\"internal_error\":{\"name\":"@.len())
            == ",\"internal_error\":{\"name\":"@),
        s.subrange(j2, j) == jpairs(parsedv),
        s[j] == ',',
        j + 1 <= ka <= s.len(),
        s.subrange(j + 1, ka) == jstr(keyv),
        (exists|m: int| 0 <= m < parsedv.len() && parsedv[m].0 == keyv) || keyv == "error"@
            || keyv == "internal_error"@ || ka == s.len() || s[ka] != ':' || (ka < s.len() && s[ka]
            == ':' && (forall|v: JsonValueSpec, e: int|
            #![trigger s.subrange(ka + 1, e), jval(v)]
            !(ka + 1 <= e <= s.len() && s.subrange(ka + 1, e) == jval(v)))),
    ensures
        forall|b: RouteErrorOutputView| !canonical_body_of(s, b),
{
    assert forall|b: RouteErrorOutputView| !canonical_body_of(s, b) by {
        if canonical_body_of(s, b) {
            lemma_body_alignment(s, b, j0, j1, j2, errorv, iview);
            assert(s.subrange(j2, s.len() as int) =~= s.subrange(j2, j) + s.subrange(
                j,
                s.len() as int,
            ));
            lemma_jpairs_prefix(parsedv, extra_members(b), s.subrange(j, s.len() as int));
            let rest = choose|rest: Seq<(Seq<char>, JsonValueSpec)>|
                extra_members(b) == parsedv + rest && s.subrange(j, s.len() as int) == jpairs(
                    rest,
                ) + seq!['}'];
            if rest.len() == 0 {
                assert(jpairs(rest) =~= Seq::<char>::empty());
                assert(s.subrange(j, s.len() as int) =~= seq!['}']);
                assert(s.subrange(j, s.len() as int)[0] == s[j + 0]);
                assert(false);
            } else {
                assert(jpairs(rest) + seq!['}'] =~= seq![','] + (jstr(rest[0].0) + (seq![':'] + (
                jval(rest[0].1) + (jpairs(rest.drop_first()) + seq!['}'])))));
                lemma_concat_prefix(
                    s,
                    j,
                    seq![','],
                    jstr(rest[0].0) + (seq![':'] + (jval(rest[0].1) + (jpairs(rest.drop_first())
                        + seq!['}']))),
                );
                assert(s.subrange(j + 1, s.len() as int) =~= s.subrange(j + 1, ka) + s.subrange(
                    ka,
                    s.len() as int,
                ));
                lemma_jstr_unamb(
                    keyv,
                    rest[0].0,
                    s.subrange(ka, s.len() as int),
                    seq![':'] + (jval(rest[0].1) + (jpairs(rest.drop_first()) + seq!['}'])),
                );
                if b.extra_data is None {
                    assert(extra_members(b) =~= Seq::<(Seq<char>, JsonValueSpec)>::empty());
                    assert(false);
                }
                let idx = parsedv.len() as int;
                assert(extra_members(b)[idx] == rest[0]);
                assert(extra_keys_ok(extra_members(b)));
                if exists|m: int| 0 <= m < parsedv.len() && parsedv[m].0 == keyv {
                    let m = choose|m: int| 0 <= m < parsedv.len() && parsedv[m].0 == keyv;
                    assert(extra_members(b)[m] == parsedv[m]);
                    assert(false);
                }
                assert(keyv != "error"@ && keyv != "internal_error"@);
                lemma_concat_prefix(
                    s,
                    ka,
                    seq![':'],
                    jval(rest[0].1) + (jpairs(rest.drop_first()) + seq!['}']),
                );
                assert(s.subrange(ka, ka + 1) =~= seq![':']);
                assert(s.subrange(ka, ka + 1)[0] == s[ka + 0]);
                assert(s[ka] == ':');
                lemma_concat_prefix(
                    s,
                    ka + 1,
                    jval(rest[0].1),
                    jpairs(rest.drop_first()) + seq!['}'],
                );
                assert(false);
            }
        }
    }
}

/// Parses the canonical JSON text of a serialized body.  It accepts exactly
/// the canonical serializations of bodies whose extra-data keys are
/// distinct and unreserved: whenever it succeeds the input is such a
/// serialization of the returned body, and whenever such a body exists for
/// the input it succeeds.
#[verifier::rlimit(100)]
pub fn route_error_output_from_json(s: &str) -> (r: Option<RouteErrorOutput>)
    ensures
        r matches Some(b) ==> canonical_body_of(s@, b@),
        r is None ==> forall|b: RouteErrorOutputView| !canonical_body_of(s@, b),
{
    let n = s.unicode_len();
    let j0 = match parse_lit(s, 0, "{\"error\":") {
        Some(j) => j,
        None => {
            proof {
                assert forall|b: RouteErrorOutputView| !canonical_body_of(s@, b) by {
                    if canonical_body_of(s@, b) {
                        lemma_body_opening(s@, b);
                        assert(false);
                    }
                }
            }
            return None
        },
    };
    let (error, j1) = match parse_jstr_at(s, j0) {
        Some(p) => p,
        None => {
            proof {
                assert forall|b: RouteErrorOutputView| !canonical_body_of(s@, b) by {
                    if canonical_body_of(s@, b) {
                        lemma_body_opening(s@, b);
                        lemma_concat_prefix(
                            s@,
                            j0 as int,
                            jstr(b.error),
                            jinternal(b.internal_error) + (jpairs(extra_members(b)) + seq!['}']),
                        );
                        assert(false);
                    }
                }
            }
            return None
        },
    };
    let mut internal_error: Option<RouteInternalErrorOutput> = None;
    let mut j2 = j1;
    match parse_lit(s, j1, ",\"internal_error\":{\"name\":") {
        Some(ja) => {
            let (name, jb) = match parse_jstr_at(s, ja) {
                Some(p) => p,
                None => {
                    proof {
                        lemma_internal_site(
                            s@,
                            j0 as int,
                            j1 as int,
                            error@,
                            ja as int,
                            Seq::<char>::empty(),
                            0,
                            0,
                            Seq::<char>::empty(),
                            0,
                        );
                    }
                    return None
                },
            };
            let jc = match parse_lit(s, jb, ",\"debug\":") {
                Some(j) => j,
                None => {
                    proof {
                        lemma_internal_site(
                            s@,
                            j0 as int,
                            j1 as int,
                            error@,
                            ja as int,
                            name@,
                            jb as int,
                            0,
                            Seq::<char>::empty(),
                            0,
                        );
                    }
                    return None
                },
            };
            let (debug, jd) = match parse_jstr_at(s, jc) {
                Some(p) => p,
                None => {
                    proof {
                        lemma_internal_site(
                            s@,
                            j0 as int,
                            j1 as int,
                            error@,
                            ja as int,
                            name@,
                            jb as int,
                            jc as int,
                            Seq::<char>::empty(),
                            0,
                        );
                    }
                    return None
                },
            };
            let closing_ok = if jd >= n {
                false
            } else {
                s.get_char(jd) == '}'
            };
            if !closing_ok {
                proof {
                    lemma_internal_site(
                        s@,
                        j0 as int,
                        j1 as int,
                        error@,
                        ja as int,
                        name@,
                        jb as int,
                        jc as int,
                        debug@,
                        jd as int,
                    );
                }
                return None;
            }
            proof {
                assert(s@.subrange(jd as int, jd + 1) =~= seq!['}']);
                assert(s@.subrange(j1 as int, jd + 1) =~= s@.subrange(j1 as int, ja as int)
                    + s@.subrange(ja as int, jb as int) + s@.subrange(jb as int, jc as int)
                    + s@.subrange(jc as int, jd as int) + s@.subrange(jd as int, jd + 1));
            }
            internal_error = Some(RouteInternalErrorOutput { name, debug });
            j2 = jd + 1;
        },
        None => {},
    }
    let ghost iview: Option<InternalErrorView> = match &internal_error {
        Some(i) => Some(i@),
        None => None,
    };
    proof {
        assert(s@.subrange(j1 as int, j2 as int) == jinternal(iview));
    }
    let reserved_error = String::from_str("error");
    let reserved_internal = String::from_str("internal_error");
    let mut pairs: Vec<(String, JsonValue)> = Vec::new();
    let mut j = j2;
    while j < n
        invariant
            j2 <= j <= n,
            n == s@.len(),
            reserved_error@ == "error"@,
            reserved_internal@ == "internal_error"@,
            s@.subrange(0, j0 as int) == "{\"error\":"@,
            s@.subrange(j0 as int, j1 as int) == jstr(error@),
            s@.subrange(j1 as int, j2 as int) == jinternal(iview),
            iview == (match &internal_error {
                Some(i) => Some(i@),
                None => None,
            }),
            iview is None ==> !(j1 + ",\"internal_error\":{\"name\":"@.len() <= s@.len()
                && s@.subrange(j1 as int, j1 + ",\"internal_error\":{\"name\":"@.len())
                == ",\"internal_error\":{\"name\":"@),
            0 <= j0 <= j1 <= j2,
            s@.subrange(j2 as int, j as int) == jpairs(pairs_view(pairs@)),
            extra_keys_ok(pairs_view(pairs@)),
        decreases n - j,
    {
        let c = s.get_char(j);
        if c == '}' {
            if j + 1 != n {
                proof {
                    lemma_pairs_site(
                        s@,
                        j0 as int,
                        j1 as int,
                        j2 as int,
                        error@,
                        iview,
                        pairs_view(pairs@),
                        j as int,
                    );
                }
                return None;
            }
            let extra_data = if pairs.len() == 0 {
                None
            } else {
                Some(ExtraData { pairs })
            };
            let b = RouteErrorOutput { error, internal_error, extra_data };
            proof {
                assert(s@.subrange(j as int, j + 1) =~= seq!['}']);
                assert(s@ =~= s@.subrange(0, j0 as int) + s@.subrange(j0 as int, j1 as int)
                    + s@.subrange(j1 as int, j2 as int) + s@.subrange(j2 as int, j as int)
                    + s@.subrange(j as int, j + 1));
                if b@.extra_data is None {
                    assert(jpairs(pairs_view(pairs@)) =~= Seq::<char>::empty());
                }
                assert(s@ =~= json_of_body(b@));
            }
            return Some(b);
        }
        if c != ',' {
            proof {
                lemma_pairs_site(
                    s@,
                    j0 as int,
                    j1 as int,
                    j2 as int,
                    error@,
                    iview,
                    pairs_view(pairs@),
                    j as int,
                );
            }
            return None;
        }
        let (key, ka) = match parse_jstr_at(s, j + 1) {
            Some(p) => p,
            None => {
                proof {
                    lemma_pairs_site(
                        s@,
                        j0 as int,
                        j1 as int,
                        j2 as int,
                        error@,
                        iview,
                        pairs_view(pairs@),
                        j as int,
                    );
                }
                return None
            },
        };
        let mut dup = false;
        let mut mi: usize = 0;
        while mi < pairs.len()
            invariant
                mi <= pairs.len(),
                dup == (exists|m: int| 0 <= m < mi && pairs_view(pairs@)[m].0 == key@),
            decreases pairs.len() - mi,
        {
            if pairs[mi].0 == key {
                proof {
                    assert(pairs_view(pairs@)[mi as int].0 == pairs@[mi as int].0@);
                }
                dup = true;
            }
            proof {
                assert(pairs_view(pairs@)[mi as int].0 == pairs@[mi as int].0@);
            }
            mi += 1;
        }
        if dup || key == reserved_error || key == reserved_internal {
            proof {
                lemma_pairs_key_site(
                    s@,
                    j0 as int,
                    j1 as int,
                    j2 as int,
                    error@,
                    iview,
                    pairs_view(pairs@),
                    j as int,
                    key@,
                    ka as int,
                );
            }
            return None;
        }
        let colon_ok = if ka >= n {
            false
        } else {
            s.get_char(ka) == ':'
        };
        if !colon_ok {
            proof {
                lemma_pairs_key_site(
                    s@,
                    j0 as int,
                    j1 as int,
                    j2 as int,
                    error@,
                    iview,
                    pairs_view(pairs@),
                    j as int,
                    key@,
                    ka as int,
                );
            }
            return None;
        }
        let (value, kb) = match parse_jval_at(s, ka + 1) {
            Some(p) => p,
            None => {
                proof {
                    lemma_pairs_key_site(
                        s@,
                        j0 as int,
                        j1 as int,
                        j2 as int,
                        error@,
                        iview,
                        pairs_view(pairs@),
                        j as int,
                        key@,
                        ka as int,
                    );
                }
                return None
            },
        };
        let ghost pairs0 = pairs_view(pairs@);
        let ghost p = (key@, value@);
        pairs.push((key, value));
        proof {
            assert(pairs_view(pairs@) =~= pairs0.push(p));
            lemma_jpairs_push(pairs0, p);
            assert(s@.subrange(j as int, j + 1) =~= seq![',']);
            assert(s@.subrange(ka as int, ka + 1) =~= seq![':']);
            assert(s@.subrange(j as int, kb as int) =~= s@.subrange(j as int, j + 1) + s@.subrange(
                j + 1,
                ka as int,
            ) + s@.subrange(ka as int, ka + 1) + s@.subrange(ka + 1, kb as int));
            assert(s@.subrange(j as int, kb as int) =~= jpair(p));
            assert(s@.subrange(j2 as int, kb as int) =~= s@.subrange(j2 as int, j as int)
                + s@.subrange(j as int, kb as int));
            assert forall|q1: int, q2: int|
                0 <= q1 < q2 < pairs_view(pairs@).len() implies pairs_view(pairs@)[q1].0
                != pairs_view(pairs@)[q2].0 by {
                if q2 < pairs0.len() as int {
                } else {
                    assert(pairs_view(pairs@)[q2] == p);
                    assert(pairs_view(pairs@)[q1] == pairs0[q1]);
                    assert(!(exists|m: int| 0 <= m < pairs0.len() && pairs0[m].0 == key@));
                }
            }
            assert forall|q: int| 0 <= q < pairs_view(pairs@).len() implies pairs_view(
                pairs@,
            )[q].0 != "error"@ && pairs_view(pairs@)[q].0 != "internal_error"@ by {
                if q < pairs0.len() as int {
                    assert(pairs_view(pairs@)[q] == pairs0[q]);
                } else {
                    assert(pairs_view(pairs@)[q] == p);
                }
            }
        }
        j = kb;
    }
    proof {
        lemma_pairs_site(
            s@,
            j0 as int,
            j1 as int,
            j2 as int,
            error@,
            iview,
            pairs_view(pairs@),
            j as int,
        );
    }
    None
}

} // verus!
