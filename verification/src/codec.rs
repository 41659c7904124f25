use vstd::prelude::*;
use vstd::string::*;
use crate::OrgError;
use crate::organizer::Organizer;
use crate::rules::{
    Rule, RuleSet, entries_view, key_seq, lemma_sorted_push, str_lt, str_lt_exec, strictly_sorted,
};

verus! {

// ----- the stored text: one object, the rules object first, the path last -----
//
// {"rules":{"exe":"Executables","torrent":"MetaInfo"},"sorting_path":"..."}
//
// Keys stand in their stored order, which is their key order; the five
// characters that would break the quoting are escaped.

/// How one character stands inside a quoted string.
pub open spec fn esc_char(c: char) -> Seq<char> {
    if c == '"' {
        seq!['\\', '"']
    } else if c == '\\' {
        seq!['\\', '\\']
    } else if c == '\n' {
        seq!['\\', 'n']
    } else if c == '\t' {
        seq!['\\', 't']
    } else if c == '\r' {
        seq!['\\', 'r']
    } else {
        seq![c]
    }
}

pub open spec fn esc_str(s: Seq<char>) -> Seq<char>
    decreases s.len(),
{
    if s.len() == 0 {
        Seq::empty()
    } else {
        esc_char(s[0]) + esc_str(s.drop_first())
    }
}

/// A quoted, escaped string.
pub open spec fn enc_string(s: Seq<char>) -> Seq<char> {
    seq!['"'] + esc_str(s) + seq!['"']
}

pub open spec fn enc_pair(p: (Seq<char>, Seq<char>)) -> Seq<char> {
    enc_string(p.0) + seq![':'] + enc_string(p.1)
}

/// The continuation of a member list: a comma before each further member.
pub open spec fn enc_pairs_rest(m: Seq<(Seq<char>, Seq<char>)>) -> Seq<char>
    decreases m.len(),
{
    if m.len() == 0 {
        Seq::empty()
    } else {
        seq![','] + enc_pair(m[0]) + enc_pairs_rest(m.drop_first())
    }
}

pub open spec fn enc_pairs(m: Seq<(Seq<char>, Seq<char>)>) -> Seq<char> {
    if m.len() == 0 {
        Seq::empty()
    } else {
        enc_pair(m[0]) + enc_pairs_rest(m.drop_first())
    }
}

/// The opening of the stored object, up to and including the opening brace
/// of the rules object.
pub open spec fn header_lit() -> Seq<char> {
    seq!['{', '"', 'r', 'u', 'l', 'e', 's', '"', ':', '{']
}

/// What stands between the rules object and the quoted path.
pub open spec fn tail_lit() -> Seq<char> {
    seq![',', '"', 's', 'o', 'r', 't', 'i', 'n', 'g', '_', 'p', 'a', 't', 'h', '"', ':']
}

/// The full stored text of a configuration.
pub open spec fn spec_encode_config(m: Seq<(Seq<char>, Seq<char>)>, path: Seq<char>) -> Seq<char> {
    header_lit() + enc_pairs(m) + seq!['}'] + tail_lit() + enc_string(path) + seq!['}']
}

pub proof fn lemma_esc_str_single(c: char)
    ensures
        esc_str(seq![c]) == esc_char(c),
{
    assert(seq![c].drop_first() =~= Seq::<char>::empty());
    assert(esc_str(Seq::<char>::empty()) =~= Seq::<char>::empty());
    assert(esc_str(seq![c]) =~= esc_char(c) + esc_str(seq![c].drop_first()));
    assert(esc_char(c) + Seq::<char>::empty() =~= esc_char(c));
}

pub proof fn lemma_esc_str_append(a: Seq<char>, b: Seq<char>)
    ensures
        esc_str(a + b) == esc_str(a) + esc_str(b),
    decreases a.len(),
{
    if a.len() == 0 {
        assert(a + b =~= b);
        assert(esc_str(a) + esc_str(b) =~= esc_str(b));
    } else {
        lemma_esc_str_append(a.drop_first(), b);
        assert((a + b).drop_first() =~= a.drop_first() + b);
        assert((a + b)[0] == a[0]);
        assert(esc_char(a[0]) + (esc_str(a.drop_first()) + esc_str(b)) =~= (esc_char(a[0])
            + esc_str(a.drop_first())) + esc_str(b));
    }
}

pub proof fn lemma_enc_pairs_rest_push(m: Seq<(Seq<char>, Seq<char>)>, p: (Seq<char>, Seq<char>))
    ensures
        enc_pairs_rest(m.push(p)) == enc_pairs_rest(m) + seq![','] + enc_pair(p),
    decreases m.len(),
{
    if m.len() == 0 {
        assert(m.push(p)[0] == p);
        assert(m.push(p).drop_first() =~= Seq::<(Seq<char>, Seq<char>)>::empty());
        assert(enc_pairs_rest(Seq::<(Seq<char>, Seq<char>)>::empty()) =~= Seq::<char>::empty());
        assert(enc_pairs_rest(m.push(p)) =~= seq![','] + enc_pair(p) + enc_pairs_rest(
            m.push(p).drop_first(),
        ));
        assert(enc_pairs_rest(m.push(p)) =~= enc_pairs_rest(m) + seq![','] + enc_pair(p));
    } else {
        lemma_enc_pairs_rest_push(m.drop_first(), p);
        assert(m.push(p)[0] == m[0]);
        assert(m.push(p).drop_first() =~= m.drop_first().push(p));
        assert(seq![','] + enc_pair(m[0]) + (enc_pairs_rest(m.drop_first()) + seq![','] + enc_pair(
            p,
        )) =~= (seq![','] + enc_pair(m[0]) + enc_pairs_rest(m.drop_first())) + seq![','] + enc_pair(
            p,
        ));
    }
}

pub proof fn lemma_enc_pairs_push(m: Seq<(Seq<char>, Seq<char>)>, p: (Seq<char>, Seq<char>))
    ensures
        enc_pairs(m.push(p)) == enc_pairs(m) + (if m.len() == 0 {
            enc_pair(p)
        } else {
            seq![','] + enc_pair(p)
        }),
{
    if m.len() == 0 {
        assert(m.push(p)[0] == p);
        assert(m.push(p).drop_first() =~= Seq::<(Seq<char>, Seq<char>)>::empty());
        assert(enc_pairs(m.push(p)) =~= enc_pair(p));
        assert(enc_pairs(m) + enc_pair(p) =~= enc_pair(p));
    } else {
        lemma_enc_pairs_rest_push(m.drop_first(), p);
        assert(m.push(p)[0] == m[0]);
        assert(m.push(p).drop_first() =~= m.drop_first().push(p));
        assert(enc_pair(m[0]) + (enc_pairs_rest(m.drop_first()) + seq![','] + enc_pair(p)) =~= (
        enc_pair(m[0]) + enc_pairs_rest(m.drop_first())) + (seq![','] + enc_pair(p)));
    }
}

/// The character an escape stands for, if the escape is known.
pub open spec fn unesc_char(c: char) -> Option<char> {
    if c == '"' {
        Some('"')
    } else if c == '\\' {
        Some('\\')
    } else if c == 'n' {
        Some('\n')
    } else if c == 't' {
        Some('\t')
    } else if c == 'r' {
        Some('\r')
    } else {
        None
    }
}

/// Reads a quoted string from behind its opening quote: characters up to
/// the closing quote, with escapes resolved. Yields the string and what
/// follows the closing quote.
pub open spec fn parse_str_body(s: Seq<char>, acc: Seq<char>) -> Option<(Seq<char>, Seq<char>)>
    decreases s.len(),
{
    if s.len() == 0 {
        None
    } else if s[0] == '"' {
        Some((acc, s.drop_first()))
    } else if s[0] == '\\' {
        if s.len() < 2 {
            None
        } else {
            match unesc_char(s[1]) {
                Some(c) => parse_str_body(s.skip(2), acc.push(c)),
                None => None,
            }
        }
    } else {
        parse_str_body(s.drop_first(), acc.push(s[0]))
    }
}

pub open spec fn parse_string(s: Seq<char>) -> Option<(Seq<char>, Seq<char>)> {
    if s.len() > 0 && s[0] == '"' {
        parse_str_body(s.drop_first(), Seq::empty())
    } else {
        None
    }
}

pub proof fn lemma_parse_str_body_shrinks(s: Seq<char>, acc: Seq<char>)
    ensures
        parse_str_body(s, acc) matches Some(p) ==> p.1.len() < s.len(),
    decreases s.len(),
{
    if s.len() > 0 && s[0] != '"' {
        if s[0] == '\\' {
            if s.len() >= 2 {
                match unesc_char(s[1]) {
                    Some(c) => lemma_parse_str_body_shrinks(s.skip(2), acc.push(c)),
                    None => {},
                }
            }
        } else {
            lemma_parse_str_body_shrinks(s.drop_first(), acc.push(s[0]));
        }
    }
}

pub proof fn lemma_parse_string_shrinks(s: Seq<char>)
    ensures
        parse_string(s) matches Some(p) ==> p.1.len() < s.len(),
{
    if s.len() > 0 && s[0] == '"' {
        lemma_parse_str_body_shrinks(s.drop_first(), Seq::empty());
    }
}

/// The whitespace the decoder tolerates between tokens.
pub open spec fn is_ws(c: char) -> bool {
    c == ' ' || c == '\n' || c == '\t' || c == '\r'
}

pub open spec fn skip_ws(s: Seq<char>) -> Seq<char>
    decreases s.len(),
{
    if s.len() > 0 && is_ws(s[0]) {
        skip_ws(s.drop_first())
    } else {
        s
    }
}

pub proof fn lemma_skip_ws_shrinks(s: Seq<char>)
    ensures
        skip_ws(s).len() <= s.len(),
    decreases s.len(),
{
    if s.len() > 0 && is_ws(s[0]) {
        lemma_skip_ws_shrinks(s.drop_first());
    }
}

/// A sequence that does not open with whitespace is left alone.
pub proof fn lemma_skip_ws_nonws(s: Seq<char>)
    requires
        s.len() == 0 || !is_ws(s[0]),
    ensures
        skip_ws(s) == s,
{
}

/// Consumes one expected character.
pub open spec fn expect_char(s: Seq<char>, c: char) -> Option<Seq<char>> {
    if s.len() > 0 && s[0] == c {
        Some(s.drop_first())
    } else {
        None
    }
}

/// The quoted key that opens the rules object.
pub open spec fn rules_key_lit() -> Seq<char> {
    seq!['"', 'r', 'u', 'l', 'e', 's', '"']
}

/// The quoted key that precedes the path.
pub open spec fn path_key_lit() -> Seq<char> {
    seq!['"', 's', 'o', 'r', 't', 'i', 'n', 'g', '_', 'p', 'a', 't', 'h', '"']
}

/// Reads the members of the rules object, checking that the keys come in
/// strictly ascending order, up to and including the closing brace.
/// Whitespace may stand between tokens; `s` starts at the first key.
pub open spec fn parse_pairs(s: Seq<char>, acc: Seq<(Seq<char>, Seq<char>)>) -> Option<
    (Seq<(Seq<char>, Seq<char>)>, Seq<char>),
>
    decreases s.len(),
{
    match parse_string(s) {
        None => None,
        Some((k, r1)) => {
            if acc.len() > 0 && !str_lt(acc.last().0, k) {
                None
            } else {
                let r1a = skip_ws(r1);
                if r1a.len() == 0 || r1a[0] != ':' {
                    None
                } else {
                    let r1b = skip_ws(r1a.drop_first());
                    match parse_string(r1b) {
                        None => None,
                        Some((v, r2)) => {
                            let r2a = skip_ws(r2);
                            if r2a.len() == 0 {
                                None
                            } else if r2a[0] == ',' {
                                proof {
                                    lemma_parse_string_shrinks(s);
                                    lemma_skip_ws_shrinks(r1);
                                    lemma_skip_ws_shrinks(r1a.drop_first());
                                    lemma_parse_string_shrinks(r1b);
                                    lemma_skip_ws_shrinks(r2);
                                    lemma_skip_ws_shrinks(r2a.drop_first());
                                }
                                parse_pairs(skip_ws(r2a.drop_first()), acc.push((k, v)))
                            } else if r2a[0] == '}' {
                                Some((acc.push((k, v)), r2a.drop_first()))
                            } else {
                                None
                            }
                        },
                    }
                }
            }
        },
    }
}

/// Reads the rules object from behind its opening brace: empty, or its
/// members.
pub open spec fn parse_obj(s: Seq<char>) -> Option<(Seq<(Seq<char>, Seq<char>)>, Seq<char>)> {
    if s.len() > 0 && s[0] == '}' {
        Some((Seq::empty(), s.drop_first()))
    } else {
        parse_pairs(s, Seq::empty())
    }
}

/// Consumes an expected literal prefix.
pub open spec fn spec_expect(s: Seq<char>, p: Seq<char>) -> Option<Seq<char>> {
    if p.len() <= s.len() && s.take(p.len() as int) == p {
        Some(s.skip(p.len() as int))
    } else {
        None
    }
}

/// What a stored text means: the rules, in stored (and checked ascending)
/// key order, and the path — or nothing, when the text is not a stored
/// configuration. Whitespace between tokens is tolerated, so texts written
/// out prettily still decode.
pub open spec fn spec_decode_config(s: Seq<char>) -> Option<
    (Seq<(Seq<char>, Seq<char>)>, Seq<char>),
> {
    match expect_char(skip_ws(s), '{') {
        None => None,
        Some(t1) => match spec_expect(skip_ws(t1), rules_key_lit()) {
            None => None,
            Some(t2) => match expect_char(skip_ws(t2), ':') {
                None => None,
                Some(t3) => match expect_char(skip_ws(t3), '{') {
                    None => None,
                    Some(t4) => match parse_obj(skip_ws(t4)) {
                        None => None,
                        Some((m, t5)) => match expect_char(skip_ws(t5), ',') {
                            None => None,
                            Some(t6) => match spec_expect(skip_ws(t6), path_key_lit()) {
                                None => None,
                                Some(t7) => match expect_char(skip_ws(t7), ':') {
                                    None => None,
                                    Some(t8) => match parse_string(skip_ws(t8)) {
                                        None => None,
                                        Some((path, t9)) => match expect_char(skip_ws(t9), '}') {
                                            None => None,
                                            Some(t10) => if skip_ws(t10).len() == 0 {
                                                Some((m, path))
                                            } else {
                                                None
                                            },
                                        },
                                    },
                                },
                            },
                        },
                    },
                },
            },
        },
    }
}

pub proof fn lemma_parse_body_of_encoding(q: Seq<char>, acc: Seq<char>, rest: Seq<char>)
    ensures
        parse_str_body(esc_str(q) + seq!['"'] + rest, acc) == Some((acc + q, rest)),
    decreases q.len(),
{
    let s_in = esc_str(q) + seq!['"'] + rest;
    if q.len() == 0 {
        assert(esc_str(q) =~= Seq::<char>::empty());
        assert(s_in =~= seq!['"'] + rest);
        assert(s_in[0] == '"');
        assert(s_in.drop_first() =~= rest);
        assert(acc + q =~= acc);
    } else {
        let c = q[0];
        let q2 = q.drop_first();
        let t = esc_char(c);
        assert(esc_str(q) == t + esc_str(q2));
        assert(s_in =~= t + (esc_str(q2) + seq!['"'] + rest));
        lemma_parse_body_of_encoding(q2, acc.push(c), rest);
        assert(acc.push(c) + q2 =~= acc + q);
        if t.len() == 2 {
            assert(t[0] == '\\');
            assert(unesc_char(t[1]) == Some(c));
            assert(s_in[0] == '\\');
            assert(s_in.len() >= 2);
            assert(s_in[1] == t[1]);
            assert(s_in.skip(2) =~= esc_str(q2) + seq!['"'] + rest);
        } else {
            assert(t =~= seq![c]);
            assert(c != '"' && c != '\\');
            assert(s_in[0] == c);
            assert(s_in.drop_first() =~= esc_str(q2) + seq!['"'] + rest);
        }
    }
}

pub proof fn lemma_parse_string_of_encoding(q: Seq<char>, rest: Seq<char>)
    ensures
        parse_string(enc_string(q) + rest) == Some((q, rest)),
{
    let s_in = enc_string(q) + rest;
    assert(s_in[0] == '"');
    assert(s_in.drop_first() =~= esc_str(q) + seq!['"'] + rest);
    lemma_parse_body_of_encoding(q, Seq::empty(), rest);
    assert(Seq::<char>::empty() + q =~= q);
}

pub proof fn lemma_parse_pairs_of_encoding(
    m: Seq<(Seq<char>, Seq<char>)>,
    acc: Seq<(Seq<char>, Seq<char>)>,
    rest: Seq<char>,
)
    requires
        m.len() > 0,
        strictly_sorted(key_seq(acc + m)),
    ensures
        parse_pairs(enc_pair(m[0]) + enc_pairs_rest(m.drop_first()) + seq!['}'] + rest, acc)
            == Some((acc + m, rest)),
    decreases m.len(),
{
    let k0 = m[0].0;
    let v0 = m[0].1;
    let m2 = m.drop_first();
    let s_in = enc_pair(m[0]) + enc_pairs_rest(m2) + seq!['}'] + rest;
    let r1t = seq![':'] + enc_string(v0) + (enc_pairs_rest(m2) + seq!['}'] + rest);
    assert(s_in =~= enc_string(k0) + r1t);
    lemma_parse_string_of_encoding(k0, r1t);
    if acc.len() > 0 {
        assert(key_seq(acc + m)[acc.len() - 1] == acc.last().0);
        assert(key_seq(acc + m)[acc.len() as int] == k0);
        assert(str_lt(acc.last().0, k0));
    }
    assert(r1t[0] == ':');
    lemma_skip_ws_nonws(r1t);
    assert(r1t.drop_first() =~= enc_string(v0) + (enc_pairs_rest(m2) + seq!['}'] + rest));
    assert(r1t.drop_first()[0] == '"');
    lemma_skip_ws_nonws(r1t.drop_first());
    lemma_parse_string_of_encoding(v0, enc_pairs_rest(m2) + seq!['}'] + rest);
    let r2 = enc_pairs_rest(m2) + seq!['}'] + rest;
    if m2.len() == 0 {
        assert(enc_pairs_rest(m2) =~= Seq::<char>::empty());
        assert(r2 =~= seq!['}'] + rest);
        assert(r2[0] == '}');
        lemma_skip_ws_nonws(r2);
        assert(r2.drop_first() =~= rest);
        assert(acc.push((k0, v0)) =~= acc + m);
    } else {
        assert(r2 =~= seq![','] + (enc_pair(m2[0]) + enc_pairs_rest(m2.drop_first()) + seq!['}']
            + rest));
        assert(r2[0] == ',');
        lemma_skip_ws_nonws(r2);
        assert(r2.drop_first() =~= enc_pair(m2[0]) + enc_pairs_rest(m2.drop_first()) + seq!['}']
            + rest);
        assert(r2.drop_first()[0] == '"');
        lemma_skip_ws_nonws(r2.drop_first());
        assert(acc.push((k0, v0)) + m2 =~= acc + m);
        lemma_parse_pairs_of_encoding(m2, acc.push((k0, v0)), rest);
    }
}

/// The round trip: the stored text of any well-formed configuration decodes
/// back to exactly that configuration — the rule entries and the path are
/// recovered structurally equal.
#[verifier::rlimit(80)]
pub proof fn lemma_config_round_trip(m: Seq<(Seq<char>, Seq<char>)>, path: Seq<char>)
    requires
        strictly_sorted(key_seq(m)),
    ensures
        spec_decode_config(spec_encode_config(m, path)) == Some((m, path)),
{
    let s = spec_encode_config(m, path);
    let x1 = enc_pairs(m) + seq!['}'] + tail_lit() + enc_string(path) + seq!['}'];
    // peel the opening tokens; none of them stands behind whitespace
    let t1 = rules_key_lit() + (seq![':'] + (seq!['{'] + x1));
    let t2 = seq![':'] + (seq!['{'] + x1);
    let t3 = seq!['{'] + x1;
    assert(s =~= seq!['{'] + t1);
    assert(s[0] == '{');
    lemma_skip_ws_nonws(s);
    assert(s.drop_first() =~= t1);
    assert(t1[0] == '"');
    lemma_skip_ws_nonws(t1);
    assert(t1.take(rules_key_lit().len() as int) =~= rules_key_lit());
    assert(t1.skip(rules_key_lit().len() as int) =~= t2);
    assert(t2[0] == ':');
    lemma_skip_ws_nonws(t2);
    assert(t2.drop_first() =~= t3);
    assert(t3[0] == '{');
    lemma_skip_ws_nonws(t3);
    assert(t3.drop_first() =~= x1);
    // the rules object itself
    let after_obj = tail_lit() + enc_string(path) + seq!['}'];
    if m.len() == 0 {
        assert(enc_pairs(m) =~= Seq::<char>::empty());
        assert(x1 =~= seq!['}'] + after_obj);
        assert(x1[0] == '}');
        lemma_skip_ws_nonws(x1);
        assert(x1.drop_first() =~= after_obj);
        assert(Seq::<(Seq<char>, Seq<char>)>::empty() =~= m);
        assert(parse_obj(x1) == Some((m, after_obj)));
    } else {
        assert(x1 =~= enc_pair(m[0]) + enc_pairs_rest(m.drop_first()) + seq!['}'] + after_obj);
        assert(enc_string(m[0].0)[0] == '"');
        assert(x1[0] == '"');
        lemma_skip_ws_nonws(x1);
        assert(Seq::<(Seq<char>, Seq<char>)>::empty() + m =~= m);
        lemma_parse_pairs_of_encoding(m, Seq::empty(), after_obj);
        assert(parse_obj(x1) == Some((m, after_obj)));
    }
    // the closing tokens
    let u1 = path_key_lit() + (seq![':'] + (enc_string(path) + seq!['}']));
    let u2 = seq![':'] + (enc_string(path) + seq!['}']);
    let u3 = enc_string(path) + seq!['}'];
    assert(after_obj =~= seq![','] + u1);
    assert(after_obj[0] == ',');
    lemma_skip_ws_nonws(after_obj);
    assert(after_obj.drop_first() =~= u1);
    assert(u1[0] == '"');
    lemma_skip_ws_nonws(u1);
    assert(u1.take(path_key_lit().len() as int) =~= path_key_lit());
    assert(u1.skip(path_key_lit().len() as int) =~= u2);
    assert(u2[0] == ':');
    lemma_skip_ws_nonws(u2);
    assert(u2.drop_first() =~= u3);
    assert(u3[0] == '"');
    lemma_skip_ws_nonws(u3);
    lemma_parse_string_of_encoding(path, seq!['}']);
    assert(seq!['}'][0] == '}');
    lemma_skip_ws_nonws(seq!['}']);
    assert(seq!['}'].drop_first() =~= Seq::<char>::empty());
    assert(skip_ws(Seq::<char>::empty()) =~= Seq::<char>::empty());
}

/// Appends the quoted, escaped form of `s`.
fn push_str_encoded(out: &mut Vec<char>, s: &str)
    ensures
        final(out)@ == old(out)@ + enc_string(s@),
{
    let ghost base = out@;
    out.push('"');
    let n = s.unicode_len();
    let mut j: usize = 0;
    proof {
        assert(esc_str(s@.take(0)) =~= Seq::<char>::empty());
        assert(out@ =~= base + seq!['"'] + esc_str(s@.take(0)));
    }
    while j < n
        invariant
            j <= n,
            n == s@.len(),
            out@ == base + seq!['"'] + esc_str(s@.take(j as int)),
        decreases n - j,
    {
        let ghost before = out@;
        let c = s.get_char(j);
        if c == '"' {
            out.push('\\');
            out.push('"');
        } else if c == '\\' {
            out.push('\\');
            out.push('\\');
        } else if c == '\n' {
            out.push('\\');
            out.push('n');
        } else if c == '\t' {
            out.push('\\');
            out.push('t');
        } else if c == '\r' {
            out.push('\\');
            out.push('r');
        } else {
            out.push(c);
        }
        proof {
            assert(out@ =~= before + esc_char(c));
            assert(s@.take(j + 1) =~= s@.take(j as int).push(s@[j as int]));
            lemma_esc_str_append(s@.take(j as int), seq![c]);
            assert(s@.take(j as int) + seq![c] =~= s@.take(j + 1));
            lemma_esc_str_single(c);
            assert(out@ =~= base + seq!['"'] + esc_str(s@.take(j + 1)));
        }
        j = j + 1;
    }
    out.push('"');
    proof {
        assert(s@.take(n as int) =~= s@);
        assert(out@ =~= base + enc_string(s@));
    }
}

/// The stored text of a configuration, ready to be written out.
#[verifier::rlimit(60)]
pub fn encode_config(o: &Organizer) -> (out: Vec<char>)
    ensures
        out@ == spec_encode_config(o.rules@, o.sorting_path@),
{
    let ghost rm = o.rules@;
    let mut out: Vec<char> = Vec::new();
    out.push('{');
    out.push('"');
    out.push('r');
    out.push('u');
    out.push('l');
    out.push('e');
    out.push('s');
    out.push('"');
    out.push(':');
    out.push('{');
    proof {
        assert(out@ =~= header_lit());
        assert(rm.take(0) =~= Seq::<(Seq<char>, Seq<char>)>::empty());
        assert(out@ =~= header_lit() + enc_pairs(rm.take(0)));
    }
    let n = o.rules.len();
    let mut i: usize = 0;
    while i < n
        invariant
            i <= n,
            n == rm.len(),
            rm == o.rules@,
            out@ == header_lit() + enc_pairs(rm.take(i as int)),
        decreases n - i,
    {
        let ghost before = out@;
        if i > 0 {
            out.push(',');
        }
        let (k, v) = o.rules.pair(i);
        let ks = k.clone();
        let vs = v.clone();
        push_str_encoded(&mut out, ks.as_str());
        out.push(':');
        push_str_encoded(&mut out, vs.as_str());
        proof {
            let p = rm[i as int];
            assert(ks@ == p.0 && vs@ == p.1);
            if i > 0 {
                assert(out@ =~= before + (seq![','] + enc_pair(p)));
            } else {
                assert(out@ =~= before + enc_pair(p));
            }
            assert(rm.take(i + 1) =~= rm.take(i as int).push(p));
            lemma_enc_pairs_push(rm.take(i as int), p);
            assert(out@ =~= header_lit() + enc_pairs(rm.take(i + 1)));
        }
        i = i + 1;
    }
    proof {
        assert(rm.take(n as int) =~= rm);
    }
    out.push('}');
    out.push(',');
    out.push('"');
    out.push('s');
    out.push('o');
    out.push('r');
    out.push('t');
    out.push('i');
    out.push('n');
    out.push('g');
    out.push('_');
    out.push('p');
    out.push('a');
    out.push('t');
    out.push('h');
    out.push('"');
    out.push(':');
    proof {
        assert(out@ =~= header_lit() + enc_pairs(rm) + seq!['}'] + tail_lit());
    }
    push_str_encoded(&mut out, o.sorting_path.as_str());
    out.push('}');
    proof {
        assert(out@ =~= spec_encode_config(rm, o.sorting_path@));
    }
    out
}

/// Relies on `String`'s `FromIterator<char>`: collecting characters yields
/// the string of exactly those characters.
#[verifier::external_body]
fn string_from_chars(v: &Vec<char>) -> (r: String)
    ensures
        r@ == v@,
{
    v.iter().collect()
}

fn make_rules_key() -> (v: Vec<char>)
    ensures
        v@ == rules_key_lit(),
{
    let mut v: Vec<char> = Vec::new();
    v.push('"');
    v.push('r');
    v.push('u');
    v.push('l');
    v.push('e');
    v.push('s');
    v.push('"');
    proof {
        assert(v@ =~= rules_key_lit());
    }
    v
}

fn make_path_key() -> (v: Vec<char>)
    ensures
        v@ == path_key_lit(),
{
    let mut v: Vec<char> = Vec::new();
    v.push('"');
    v.push('s');
    v.push('o');
    v.push('r');
    v.push('t');
    v.push('i');
    v.push('n');
    v.push('g');
    v.push('_');
    v.push('p');
    v.push('a');
    v.push('t');
    v.push('h');
    v.push('"');
    proof {
        assert(v@ =~= path_key_lit());
    }
    v
}

/// The position of the next character that is not whitespace.
fn ws_to(text: &Vec<char>, i: usize) -> (j: usize)
    requires
        i <= text@.len(),
    ensures
        i <= j <= text@.len(),
        skip_ws(text@.skip(i as int)) == text@.skip(j as int),
{
    let n = text.len();
    let mut j = i;
    while j < n && (text[j] == ' ' || text[j] == '\n' || text[j] == '\t' || text[j] == '\r')
        invariant
            i <= j <= n,
            n == text@.len(),
            skip_ws(text@.skip(i as int)) == skip_ws(text@.skip(j as int)),
        decreases n - j,
    {
        proof {
            assert(text@.skip(j as int)[0] == text@[j as int]);
            assert(text@.skip(j as int).drop_first() =~= text@.skip(j + 1));
        }
        j = j + 1;
    }
    proof {
        if j == n {
            assert(text@.skip(j as int) =~= Seq::<char>::empty());
        } else {
            assert(text@.skip(j as int)[0] == text@[j as int]);
        }
    }
    j
}

/// Skips whitespace, then consumes one expected character.
fn expect_char_ws(text: &Vec<char>, i: usize, c: char) -> (r: Option<usize>)
    requires
        i <= text@.len(),
    ensures
        match r {
            Some(j) => {
                &&& j <= text@.len()
                &&& expect_char(skip_ws(text@.skip(i as int)), c) == Some(text@.skip(j as int))
            },
            None => expect_char(skip_ws(text@.skip(i as int)), c) is None,
        },
{
    let j = ws_to(text, i);
    let n = text.len();
    if j < n && text[j] == c {
        proof {
            assert(text@.skip(j as int)[0] == text@[j as int]);
            assert(text@.skip(j as int).drop_first() =~= text@.skip(j + 1));
        }
        Some(j + 1)
    } else {
        proof {
            if j < n {
                assert(text@.skip(j as int)[0] == text@[j as int]);
            } else {
                assert(text@.skip(j as int) =~= Seq::<char>::empty());
            }
        }
        None
    }
}

/// Skips whitespace, then consumes an expected literal.
fn expect_token_ws(text: &Vec<char>, i: usize, pat: &Vec<char>) -> (r: Option<usize>)
    requires
        i <= text@.len(),
    ensures
        match r {
            Some(j) => {
                &&& j <= text@.len()
                &&& spec_expect(skip_ws(text@.skip(i as int)), pat@) == Some(text@.skip(j as int))
            },
            None => spec_expect(skip_ws(text@.skip(i as int)), pat@) is None,
        },
{
    let j = ws_to(text, i);
    expect_seq(text, j, pat)
}

fn expect_seq(text: &Vec<char>, i: usize, pat: &Vec<char>) -> (r: Option<usize>)
    requires
        i <= text@.len(),
    ensures
        match r {
            Some(j) => {
                &&& j == i + pat@.len()
                &&& j <= text@.len()
                &&& spec_expect(text@.skip(i as int), pat@) == Some(text@.skip(j as int))
            },
            None => spec_expect(text@.skip(i as int), pat@) is None,
        },
{
    let m = pat.len();
    let n = text.len();
    if n - i < m {
        return None;
    }
    let mut j: usize = 0;
    while j < m
        invariant
            j <= m,
            m == pat@.len(),
            n == text@.len(),
            i + m <= n,
            forall|k: int| 0 <= k < j ==> text@[i + k] == pat@[k],
        decreases m - j,
    {
        if text[i + j] != pat[j] {
            proof {
                assert(text@.skip(i as int).take(m as int)[j as int] == text@[i + j]);
                assert(text@.skip(i as int).take(m as int) != pat@);
            }
            return None;
        }
        j = j + 1;
    }
    proof {
        assert(text@.skip(i as int).take(m as int) =~= pat@);
        assert(text@.skip(i as int).skip(m as int) =~= text@.skip(i + m));
    }
    Some(i + m)
}

fn parse_string_at(text: &Vec<char>, i: usize) -> (r: Option<(Vec<char>, usize)>)
    requires
        i <= text@.len(),
    ensures
        match r {
            Some(p) => {
                &&& i < p.1 <= text@.len()
                &&& parse_string(text@.skip(i as int)) == Some((p.0@, text@.skip(p.1 as int)))
            },
            None => parse_string(text@.skip(i as int)) is None,
        },
{
    let n = text.len();
    if i == n {
        return None;
    }
    if text[i] != '"' {
        proof {
            assert(text@.skip(i as int)[0] == text@[i as int]);
        }
        return None;
    }
    let mut w: Vec<char> = Vec::new();
    let mut p: usize = i + 1;
    proof {
        assert(text@.skip(i as int)[0] == text@[i as int]);
        assert(text@.skip(i as int).drop_first() =~= text@.skip(i + 1));
    }
    loop
        invariant
            i + 1 <= p <= n,
            n == text@.len(),
            parse_string(text@.skip(i as int)) == parse_str_body(text@.skip(p as int), w@),
        decreases n - p,
    {
        if p == n {
            proof {
                assert(text@.skip(p as int) =~= Seq::<char>::empty());
            }
            return None;
        }
        let c = text[p];
        proof {
            assert(text@.skip(p as int)[0] == text@[p as int]);
        }
        if c == '"' {
            proof {
                assert(text@.skip(p as int).drop_first() =~= text@.skip(p + 1));
            }
            return Some((w, p + 1));
        } else if c == '\\' {
            if p + 1 == n {
                proof {
                    assert(text@.skip(p as int).len() == 1);
                }
                return None;
            }
            let e = text[p + 1];
            proof {
                assert(text@.skip(p as int)[1] == text@[p + 1]);
                assert(text@.skip(p as int).len() >= 2);
            }
            let u: char;
            if e == '"' {
                u = '"';
            } else if e == '\\' {
                u = '\\';
            } else if e == 'n' {
                u = '\n';
            } else if e == 't' {
                u = '\t';
            } else if e == 'r' {
                u = '\r';
            } else {
                proof {
                    assert(unesc_char(e) is None);
                }
                return None;
            }
            proof {
                assert(unesc_char(e) == Some(u));
                assert(text@.skip(p as int).skip(2) =~= text@.skip(p + 2));
            }
            w.push(u);
            p = p + 2;
        } else {
            proof {
                assert(text@.skip(p as int).drop_first() =~= text@.skip(p + 1));
            }
            w.push(c);
            p = p + 1;
        }
    }
}

/// Reads a stored text back into a configuration. Exactly the texts that
/// mean a configuration are accepted; everything else is `ConfigCorrupt`.
pub fn decode_config(text: &Vec<char>) -> (r: Result<Organizer, OrgError>)
    ensures
        match spec_decode_config(text@) {
            Some(mp) => r matches Ok(o) && o.rules@ == mp.0 && o.sorting_path@ == mp.1 && o.wf(),
            None => r matches Err(e) && e == OrgError::ConfigCorrupt,
        },
{
    let n = text.len();
    proof {
        assert(text@.skip(0) =~= text@);
    }
    let ia = match expect_char_ws(text, 0, '{') {
        Some(j) => j,
        None => {
            return Err(OrgError::ConfigCorrupt);
        },
    };
    let rules_key = make_rules_key();
    let ib = match expect_token_ws(text, ia, &rules_key) {
        Some(j) => j,
        None => {
            return Err(OrgError::ConfigCorrupt);
        },
    };
    let ic = match expect_char_ws(text, ib, ':') {
        Some(j) => j,
        None => {
            return Err(OrgError::ConfigCorrupt);
        },
    };
    let id = match expect_char_ws(text, ic, '{') {
        Some(j) => j,
        None => {
            return Err(OrgError::ConfigCorrupt);
        },
    };
    let iobj = ws_to(text, id);
    let mut entries: Vec<Rule> = Vec::new();
    let mut i2: usize = 0;
    if iobj < n && text[iobj] == '}' {
        i2 = iobj + 1;
        proof {
            assert(text@.skip(iobj as int)[0] == text@[iobj as int]);
            assert(text@.skip(iobj as int).drop_first() =~= text@.skip(i2 as int));
            assert(parse_obj(text@.skip(iobj as int)) == Some(
                (Seq::<(Seq<char>, Seq<char>)>::empty(), text@.skip(i2 as int)),
            ));
            assert(entries_view(entries@) =~= Seq::<(Seq<char>, Seq<char>)>::empty());
        }
    } else {
        proof {
            if iobj < n {
                assert(text@.skip(iobj as int)[0] == text@[iobj as int]);
            } else {
                assert(text@.skip(iobj as int) =~= Seq::<char>::empty());
            }
            assert(parse_obj(text@.skip(iobj as int)) == parse_pairs(
                text@.skip(iobj as int),
                Seq::empty(),
            ));
            assert(entries_view(entries@) =~= Seq::<(Seq<char>, Seq<char>)>::empty());
        }
        let mut p = iobj;
        loop
            invariant_except_break
                parse_obj(text@.skip(iobj as int)) == parse_pairs(
                    text@.skip(p as int),
                    entries_view(entries@),
                ),
            invariant
                iobj <= p <= n,
                n == text@.len(),
                expect_char(skip_ws(text@), '{') == Some(text@.skip(ia as int)),
                spec_expect(skip_ws(text@.skip(ia as int)), rules_key_lit()) == Some(
                    text@.skip(ib as int),
                ),
                expect_char(skip_ws(text@.skip(ib as int)), ':') == Some(text@.skip(ic as int)),
                expect_char(skip_ws(text@.skip(ic as int)), '{') == Some(text@.skip(id as int)),
                skip_ws(text@.skip(id as int)) == text@.skip(iobj as int),
                strictly_sorted(key_seq(entries_view(entries@))),
            ensures
                i2 <= n,
                strictly_sorted(key_seq(entries_view(entries@))),
                parse_obj(text@.skip(iobj as int)) == Some(
                    (entries_view(entries@), text@.skip(i2 as int)),
                ),
            decreases n - p,
        {
            let ghost acc0 = entries_view(entries@);
            let (kw, p1) = match parse_string_at(text, p) {
                Some(x) => x,
                None => {
                    return Err(OrgError::ConfigCorrupt);
                },
            };
            let kstr = string_from_chars(&kw);
            if entries.len() > 0 {
                let le = entries.len() - 1;
                proof {
                    assert(acc0.last().0 == entries@[le as int]@.0);
                }
                if !str_lt_exec(entries[le].ext.as_str(), kstr.as_str()) {
                    return Err(OrgError::ConfigCorrupt);
                }
            }
            let q1 = ws_to(text, p1);
            if q1 == n {
                proof {
                    assert(text@.skip(q1 as int) =~= Seq::<char>::empty());
                }
                return Err(OrgError::ConfigCorrupt);
            }
            if text[q1] != ':' {
                proof {
                    assert(text@.skip(q1 as int)[0] == text@[q1 as int]);
                }
                return Err(OrgError::ConfigCorrupt);
            }
            proof {
                assert(text@.skip(q1 as int)[0] == text@[q1 as int]);
                assert(text@.skip(q1 as int).drop_first() =~= text@.skip(q1 + 1));
            }
            let q2 = ws_to(text, q1 + 1);
            let (vw, p2) = match parse_string_at(text, q2) {
                Some(x) => x,
                None => {
                    return Err(OrgError::ConfigCorrupt);
                },
            };
            let vstr = string_from_chars(&vw);
            proof {
                if entries@.len() > 0 {
                    assert(key_seq(acc0).last() == acc0.last().0);
                }
                lemma_sorted_push(key_seq(acc0), kw@);
                assert(key_seq(acc0.push((kw@, vw@))) =~= key_seq(acc0).push(kw@));
            }
            entries.push(Rule { ext: kstr, dest: vstr });
            proof {
                assert(entries_view(entries@) =~= acc0.push((kw@, vw@)));
            }
            let q3 = ws_to(text, p2);
            if q3 == n {
                proof {
                    assert(text@.skip(q3 as int) =~= Seq::<char>::empty());
                }
                return Err(OrgError::ConfigCorrupt);
            }
            let c2 = text[q3];
            proof {
                assert(text@.skip(q3 as int)[0] == text@[q3 as int]);
                assert(text@.skip(q3 as int).drop_first() =~= text@.skip(q3 + 1));
            }
            if c2 == ',' {
                p = ws_to(text, q3 + 1);
            } else if c2 == '}' {
                i2 = q3 + 1;
                break;
            } else {
                return Err(OrgError::ConfigCorrupt);
            }
        }
    }
    let ghost macc = entries_view(entries@);
    let i5 = match expect_char_ws(text, i2, ',') {
        Some(j) => j,
        None => {
            return Err(OrgError::ConfigCorrupt);
        },
    };
    let path_key = make_path_key();
    let i6 = match expect_token_ws(text, i5, &path_key) {
        Some(j) => j,
        None => {
            return Err(OrgError::ConfigCorrupt);
        },
    };
    let i7 = match expect_char_ws(text, i6, ':') {
        Some(j) => j,
        None => {
            return Err(OrgError::ConfigCorrupt);
        },
    };
    let i8 = ws_to(text, i7);
    let (pw, i9) = match parse_string_at(text, i8) {
        Some(x) => x,
        None => {
            return Err(OrgError::ConfigCorrupt);
        },
    };
    let i10 = match expect_char_ws(text, i9, '}') {
        Some(j) => j,
        None => {
            return Err(OrgError::ConfigCorrupt);
        },
    };
    let i11 = ws_to(text, i10);
    if i11 != n {
        proof {
            assert(text@.skip(i11 as int).len() > 0);
        }
        return Err(OrgError::ConfigCorrupt);
    }
    proof {
        assert(text@.skip(i11 as int) =~= Seq::<char>::empty());
    }
    let path = string_from_chars(&pw);
    let rules = RuleSet { entries };
    proof {
        assert(rules@ == macc);
        assert(spec_decode_config(text@) == Some((macc, pw@)));
    }
    Ok(Organizer { rules, sorting_path: path })
}

} // verus!
