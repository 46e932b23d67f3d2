//! What holds of the decoder and the encoder over all inputs.

use vstd::prelude::*;
use crate::access::{top_key_spec, value_sep_spec};
use crate::de::{
    FloatClass, all_digits, bool_of, byte_elems_spec, bytes_request, digits_value, eq_ci_spec,
    float_class, ident_spec, int_in_range, is_quote, lower_spec, map_open_spec, nan_lit,
    num_lex_spec, peek_line_spec, seq_close_spec, seq_next_spec, skip_any, skip_line, skip_nl,
    skip_sep, str_spec,
};
use crate::error::ErrorCode;
use crate::read::{
    alpha_spec, control_spec, delim_spec, digit_spec, lemma_scan_word, num_symbolic,
    numeric_byte_spec, point_error, scan_numeric, scan_word, str_lex, str_scan, word_byte_spec,
    ws_line_spec, ws_spec,
};
use crate::ser::{
    bare_key, decimal, escape_byte, escape_bytes, int_text, key_text, lit_assign, lit_false,
    lit_true, quoted,
};

verus! {

proof fn lemma_skip_sep_run(s: Seq<u8>, k: int, j: int)
    requires
        0 <= k <= j <= s.len(),
        forall|i: int| k <= i < j ==> (ws_spec(#[trigger] s[i]) || s[i] == 0x2c),
    ensures
        skip_sep(s, k, false) == skip_sep(s, j, false),
    decreases j - k,
{
    if k < j {
        lemma_skip_sep_run(s, k + 1, j);
    }
}

/// Between the elements of a sequence, any run of commas and whitespace (none,
/// one, many, in any order, trailing before `]`) separates in the same way:
/// looking for the next element or for the end gives the same answer from
/// anywhere in the run.
pub proof fn law_seq_separators(s: Seq<u8>, k: int, j: int)
    requires
        0 <= k <= j <= s.len(),
        forall|i: int| k <= i < j ==> (ws_spec(#[trigger] s[i]) || s[i] == 0x2c),
    ensures
        seq_next_spec(s, k) == seq_next_spec(s, j),
        seq_close_spec(s, k) == seq_close_spec(s, j),
{
    lemma_skip_sep_run(s, k, j);
}

/// A sequence may be empty: right after `[`, a `]` (after any commas and
/// whitespace) means no element follows, and closes it.
pub proof fn law_empty_seq(s: Seq<u8>, k: int, j: int)
    requires
        0 <= k <= j < s.len(),
        forall|i: int| k <= i < j ==> (ws_spec(#[trigger] s[i]) || s[i] == 0x2c),
        s[j] == 0x5d,
    ensures
        seq_next_spec(s, k) == Ok::<bool, crate::error::Error>(false),
        seq_close_spec(s, k) == Ok::<int, crate::error::Error>(j + 1),
{
    lemma_skip_sep_run(s, k, j);
}

proof fn lemma_scan_digits(s: Seq<u8>, k: int, e: int)
    requires
        0 <= k <= e < s.len(),
        forall|i: int| k <= i < e ==> digit_spec(#[trigger] s[i]),
        !numeric_byte_spec(s[e]),
    ensures
        scan_numeric(s, k) == e,
    decreases e - k,
{
    if k < e {
        lemma_scan_digits(s, k + 1, e);
    }
}

/// Inside a sequence a number needs no whitespace before the closing `]`: the
/// number ends there, and `]` is seen next.
pub proof fn law_number_before_bracket(s: Seq<u8>, k: int, e: int)
    requires
        0 <= k < e < s.len(),
        forall|i: int| k <= i < e ==> digit_spec(#[trigger] s[i]),
        s[e] == 0x5d,
    ensures
        num_lex_spec(s, k) == Ok::<(Seq<u8>, int), crate::error::Error>((s.subrange(k, e), e)),
        seq_next_spec(s, e) == Ok::<bool, crate::error::Error>(false),
{
    assert(digit_spec(s[k]));
    lemma_scan_digits(s, k, e);
    assert(!num_symbolic(s, k));
}

/// With no composite open, a map needs no braces: opening it always succeeds.
pub proof fn law_top_level_map(s: Seq<u8>, k: int)
    requires
        0 <= k <= s.len(),
    ensures
        map_open_spec(s, k, 0) is Ok,
{
}

proof fn lemma_skip_line_run(s: Seq<u8>, k: int, j: int)
    requires
        0 <= k <= j <= s.len(),
        forall|i: int| k <= i < j ==> ws_line_spec(#[trigger] s[i]),
    ensures
        skip_line(s, k) == skip_line(s, j),
    decreases j - k,
{
    if k < j {
        lemma_skip_line_run(s, k + 1, j);
    }
}

/// After a quoted string, a `[` later on the same line is what comes next:
/// the string is the tag of a value.
pub proof fn law_tag_same_line(s: Seq<u8>, e: int, j: int)
    requires
        0 <= e <= j < s.len(),
        forall|i: int| e <= i < j ==> ws_line_spec(#[trigger] s[i]),
        s[j] == 0x5b,
    ensures
        peek_line_spec(s, e) == Ok::<Option<u8>, crate::error::Error>(Some(0x5bu8)),
{
    lemma_skip_line_run(s, e, j);
}

/// After a quoted string, a `[` on a later line is not: the line ends first,
/// which is an `UnexpectedNewline` at the newline.
pub proof fn law_tag_next_line(s: Seq<u8>, e: int, n: int)
    requires
        0 <= e <= n < s.len(),
        forall|i: int| e <= i < n ==> ws_line_spec(#[trigger] s[i]),
        s[n] == 0x0a,
    ensures
        peek_line_spec(s, e) == Err::<Option<u8>, crate::error::Error>(
            point_error(ErrorCode::UnexpectedNewline, s, n),
        ),
{
    lemma_skip_line_run(s, e, n);
}

/// The encoder writes a key bare exactly when it is an ASCII letter followed
/// by ASCII letters and digits; such a key, followed by a delimiter, reads back
/// as the same identifier, borrowed. Every other key is quoted.
pub proof fn law_bare_keys(b: Seq<u8>, rest: Seq<u8>)
    requires
        rest.len() == 0 || delim_spec(rest[0]),
    ensures
        bare_key(b) ==> key_text(b) == b && ident_spec(b + rest, 0) == Ok::<
            (Seq<u8>, int, bool),
            crate::error::Error,
        >((b, b.len() as int, false)),
        !bare_key(b) ==> key_text(b) == quoted(b),
{
    if bare_key(b) {
        let s = b + rest;
        assert forall|j: int| 0 <= j < b.len() implies word_byte_spec(#[trigger] s[j]) by {
            assert(s[j] == b[j]);
            if j > 0 {
                assert(alpha_spec(b[j]) || digit_spec(b[j]));
            }
        }
        lemma_scan_word_exact(s, 0, b.len() as int);
        assert(s.subrange(0, b.len() as int) =~= b);
    }
}

/// Identifiers that the decoder reads bare and that hold no `_` are written
/// bare by the encoder.
#[verifier::rlimit(30)]
pub proof fn law_bare_identifiers_stay_bare(s: Seq<u8>, k: int)
    requires
        0 <= k < s.len(),
        ident_spec(s, k) matches Ok((w, e, esc)) && !is_quote(s[k]) && forall|j: int|
            0 <= j < w.len() ==> #[trigger] w[j] != 0x5f,
    ensures
        ident_spec(s, k) matches Ok((w, e, esc)) && bare_key(w) && key_text(w) == w,
{
    let w = ident_spec(s, k)->Ok_0.0;
    lemma_scan_word(s, k);
    assert(w == s.subrange(k, scan_word(s, k)));
    assert(w.len() > 0) by {
        assert(alpha_spec(s[k]) || s[k] == 0x5f);
        assert(word_byte_spec(s[k]));
    }
    assert(w[0] == s[k]);
    assert forall|j: int| 1 <= j < w.len() implies (alpha_spec(#[trigger] w[j]) || digit_spec(
        w[j],
    )) by {
        assert(w[j] == s[k + j]);
        assert(word_byte_spec(s[k + j]));
    }
}

proof fn lemma_scan_word_exact(s: Seq<u8>, k: int, e: int)
    requires
        0 <= k <= e <= s.len(),
        forall|j: int| k <= j < e ==> word_byte_spec(#[trigger] s[j]),
        e == s.len() || !word_byte_spec(s[e]),
    ensures
        scan_word(s, k) == e,
    decreases e - k,
{
    if k < e {
        lemma_scan_word_exact(s, k + 1, e);
    }
}

/// A bytes value is the same whether it was written as a quoted string or as
/// a sequence of byte integers, when the string's bytes are those integers;
/// only the quoted form can be borrowed.
pub proof fn law_bytes_forms(s1: Seq<u8>, k1: int, s2: Seq<u8>, k2: int)
    requires
        0 <= k1 < s1.len(),
        0 <= k2 < s2.len(),
        is_quote(s1[k1]),
        s2[k2] == 0x5b,
        str_lex(s1, k1) is Ok,
        byte_elems_spec(s2, k2 + 1) is Ok,
        str_lex(s1, k1)->Ok_0.0 == byte_elems_spec(s2, k2 + 1)->Ok_0.0,
    ensures
        bytes_request(s1, k1) matches Ok((b1, e1, _)) && bytes_request(s2, k2) matches Ok((
            b2,
            e2,
            borrowed,
        )) && b1 == b2 && !borrowed,
{
}

/// `.nan`, in any case and with or without one `+`, is never a number.
pub proof fn law_no_nan(t: Seq<u8>)
    requires
        eq_ci_spec(t, nan_lit()) || (t.len() > 0 && t[0] == 0x2b && eq_ci_spec(
            t.subrange(1, t.len() as int),
            nan_lit(),
        )),
    ensures
        float_class(t) == FloatClass::NaN,
{
    let plus = t.len() > 0 && t[0] == 0x2b;
    let st = if plus {
        t.subrange(1, t.len() as int)
    } else {
        t
    };
    if plus {
        if eq_ci_spec(t, nan_lit()) {
            assert(lower_spec(t[0]) == lower_spec(nan_lit()[0]));
        }
    }
    assert(eq_ci_spec(st, nan_lit()));
    assert(lower_spec(st[0]) == lower_spec(nan_lit()[0]));
    assert(lower_spec(st[1]) == lower_spec(nan_lit()[1]));
    assert(!eq_ci_spec(st, crate::de::inf_lit())) by {
        assert(lower_spec(crate::de::inf_lit()[1]) == 0x69);
    }
    assert(!eq_ci_spec(st, crate::de::neg_inf_lit()));
}

proof fn lemma_decimal(n: nat)
    ensures
        all_digits(decimal(n)),
        digits_value(decimal(n)) == n,
        decimal(n)[0] != 0x2d && decimal(n)[0] != 0x2b,
    decreases n,
{
    if n >= 10 {
        lemma_decimal(n / 10);
        let d = decimal(n);
        assert(d.drop_last() =~= decimal(n / 10));
        vstd::arithmetic::div_mod::lemma_fundamental_div_mod(n as int, 10);
        vstd::arithmetic::div_mod::lemma_mod_pos_bound(n as int, 10);
        assert(d.last() == (0x30 + n % 10) as u8);
        assert(d.last() - 0x30 == n % 10);
        assert(digits_value(d) == digits_value(decimal(n / 10)) * 10 + (n % 10));
        assert(digits_value(d) == (n / 10) * 10 + (n % 10));
        assert(n == 10 * (n / 10) + n % 10);
        assert forall|j: int| 0 <= j < d.len() implies digit_spec(#[trigger] d[j]) by {
            if j < d.len() - 1 {
                assert(d[j] == decimal(n / 10)[j]);
            }
        }
    } else {
        let d = decimal(n);
        assert(d.drop_last() =~= Seq::<u8>::empty());
        assert(digits_value(d.drop_last()) == 0);
        assert(d.last() == (0x30 + n) as u8);
        assert(digits_value(d) == n);
    }
}

/// An integer written by the encoder reads back as the same integer, for any
/// type whose range holds it.
pub proof fn law_int_text_reads_back(v: int, min: int, max: int)
    requires
        min <= v <= max,
        min <= 0,
        v < 0 ==> min < 0,
    ensures
        int_in_range(int_text(v), min, max) == Some(v),
{
    let t = int_text(v);
    if v < 0 {
        lemma_decimal((-v) as nat);
        assert(t.subrange(1, t.len() as int) =~= decimal((-v) as nat));
    } else {
        lemma_decimal(v as nat);
    }
}

/// A boolean written by the encoder reads back as the same boolean.
pub proof fn law_bool_reads_back(b: bool)
    ensures
        bool_of(if b {
            lit_true()
        } else {
            lit_false()
        }) == Some(b),
{
    if b {
        assert(lit_true()[0] == 0x74);
    } else {
        assert(lit_false()[0] == 0x66);
        assert(lit_false().len() == 5);
    }
}

proof fn lemma_escape_concat(a: Seq<u8>, b: Seq<u8>)
    ensures
        escape_bytes(a + b) == escape_bytes(a) + escape_bytes(b),
    decreases b.len(),
{
    if b.len() == 0 {
        assert(a + b =~= a);
        assert(escape_bytes(a) + escape_bytes(b) =~= escape_bytes(a));
    } else {
        lemma_escape_concat(a, b.drop_last());
        assert((a + b).drop_last() =~= a + b.drop_last());
        assert(escape_bytes(a) + escape_bytes(b) =~= escape_bytes(a) + escape_bytes(b.drop_last())
            + escape_byte(b.last()));
    }
}

/// Bytes that a string may hold and still read back: any but the control
/// characters that have no escape.
pub open spec fn writable(b: Seq<u8>) -> bool {
    forall|i: int|
        0 <= i < b.len() ==> !control_spec(#[trigger] b[i]) || b[i] == 0x0a || b[i] == 0x0d
            || b[i] == 0x09 || b[i] == 0x08 || b[i] == 0x0c
}

#[verifier::rlimit(30)]
proof fn lemma_scan_quoted(s: Seq<u8>, p: int, done: Seq<u8>, todo: Seq<u8>, esc: bool)
    requires
        writable(todo),
        0 <= p,
        s.len() > p + escape_bytes(todo).len(),
        s.subrange(p, p + escape_bytes(todo).len()) == escape_bytes(todo),
        s[p + escape_bytes(todo).len()] == 0x22,
    ensures
        str_scan(s, 0x22, p, done, esc) matches Ok((c, e, _)) && c == done + todo && e == p
            + escape_bytes(todo).len() + 1,
    decreases todo.len(),
{
    if todo.len() == 0 {
        assert(done + todo =~= done);
    } else {
        let c = todo[0];
        let rest = todo.subrange(1, todo.len() as int);
        assert(todo =~= seq![c] + rest);
        lemma_escape_concat(seq![c], rest);
        assert(seq![c].drop_last() =~= Seq::<u8>::empty());
        assert(escape_bytes(Seq::<u8>::empty()) =~= Seq::<u8>::empty());
        assert(escape_bytes(seq![c]) =~= escape_bytes(Seq::<u8>::empty()) + escape_byte(c));
        assert(escape_bytes(seq![c]) =~= escape_byte(c));
        let w = escape_byte(c).len() as int;
        assert(s.subrange(p, p + w) == escape_byte(c)) by {
            assert(s.subrange(p, p + w) =~= escape_bytes(todo).subrange(0, w));
        }
        assert(s.subrange(p + w, p + w + escape_bytes(rest).len()) =~= escape_bytes(rest)) by {
            assert(s.subrange(p + w, p + w + escape_bytes(rest).len()) =~= escape_bytes(
                todo,
            ).subrange(w, escape_bytes(todo).len() as int));
        }
        assert(writable(rest)) by {
            assert forall|i: int| 0 <= i < rest.len() implies !control_spec(#[trigger] rest[i])
                || rest[i] == 0x0a || rest[i] == 0x0d || rest[i] == 0x09 || rest[i] == 0x08
                || rest[i] == 0x0c by {
                assert(rest[i] == todo[i + 1]);
            }
        }
        assert(todo[0] == c);
        assert(s[p] == escape_byte(c)[0]);
        if w == 2 {
            assert(s[p + 1] == escape_byte(c)[1]);
            lemma_scan_quoted(s, p + 2, done.push(c), rest, true);
        } else {
            lemma_scan_quoted(s, p + 1, done.push(c), rest, esc);
        }
        assert(done.push(c) + rest =~= done + todo);
    }
}

/// A string written by the encoder reads back as the same bytes, whenever it
/// holds no control character without an escape and a delimiter (or the end)
/// follows it.
pub proof fn law_string_reads_back(b: Seq<u8>, rest: Seq<u8>)
    requires
        writable(b),
        rest.len() == 0 || delim_spec(rest[0]),
    ensures
        str_lex(quoted(b) + rest, 0) matches Ok((c, e, _)) && c == b && e == quoted(b).len(),
{
    let s = quoted(b) + rest;
    let n = escape_bytes(b).len() as int;
    assert(s.subrange(1, 1 + n) =~= escape_bytes(b));
    assert(s[1 + n] == 0x22);
    assert(s[0] == 0x22);
    lemma_scan_quoted(s, 1, seq![], b, false);
    assert(seq![] + b =~= b);
}


/// One entry of a top-level map of strings as the encoder writes it: the key,
/// ` = `, the quoted value, a newline.
pub open spec fn entry_text(k: Seq<u8>, v: Seq<u8>) -> Seq<u8> {
    key_text(k) + lit_assign() + quoted(v) + seq![0x0au8]
}

/// A top-level map of strings as the encoder writes it.
pub open spec fn flat_text(es: Seq<(Seq<u8>, Seq<u8>)>) -> Seq<u8>
    decreases es.len(),
{
    if es.len() == 0 {
        seq![]
    } else {
        entry_text(es[0].0, es[0].1) + flat_text(es.drop_first())
    }
}

/// The entries a consumer of a map of strings reads from `k` on, through the
/// decoder's requests: next key, key as identifier, separator, string value.
pub open spec fn read_entries(s: Seq<u8>, k: int, first: bool) -> Option<Seq<(Seq<u8>, Seq<u8>)>>
    decreases s.len() - k,
{
    match top_key_spec(s, k, first) {
        (Ok(false), _) => Some(seq![]),
        (Ok(true), a) => match ident_spec(s, a) {
            Ok((key, e1, _)) => match value_sep_spec(s, e1) {
                Ok(vpos) => match str_spec(s, vpos) {
                    Ok((val, e2, _)) => if k < e2 <= s.len() {
                        match read_entries(s, e2, false) {
                            Some(rest) => Some(seq![(key, val)] + rest),
                            None => None,
                        }
                    } else {
                        None
                    },
                    Err(_) => None,
                },
                Err(_) => None,
            },
            Err(_) => None,
        },
        _ => None,
    }
}

/// What a map of strings may hold and be written and read back: keys and
/// values that are UTF-8 without control characters that have no escape.
pub open spec fn flat_entries_ok(es: Seq<(Seq<u8>, Seq<u8>)>) -> bool {
    forall|i: int|
        0 <= i < es.len() ==> writable(#[trigger] es[i].0) && writable(es[i].1)
            && vstd::utf8::valid_utf8(es[i].0) && vstd::utf8::valid_utf8(es[i].1)
}

/// A quoted string at `p` in `s` reads as its content.
pub proof fn lemma_quoted_at(s: Seq<u8>, p: int, b: Seq<u8>)
    requires
        writable(b),
        vstd::utf8::valid_utf8(b),
        0 <= p,
        p + quoted(b).len() < s.len(),
        s.subrange(p, p + quoted(b).len()) == quoted(b),
        delim_spec(s[p + quoted(b).len()]),
    ensures
        str_spec(s, p) matches Ok((c, e, _)) && c == b && e == p + quoted(b).len(),
{
    let n = escape_bytes(b).len() as int;
    assert(s[p] == quoted(b)[0]);
    assert(s.subrange(p + 1, p + 1 + n) =~= escape_bytes(b)) by {
        assert(s.subrange(p + 1, p + 1 + n) =~= s.subrange(p, p + quoted(b).len()).subrange(
            1,
            1 + n,
        ));
    }
    assert(s[p + 1 + n] == quoted(b)[1 + n]);
    lemma_scan_quoted(s, p + 1, seq![], b, false);
    assert(seq![] + b =~= b);
}

/// A key as the encoder writes it, at `a` in `s` and followed by a space,
/// reads as the same identifier.
pub proof fn lemma_key_at(s: Seq<u8>, a: int, k: Seq<u8>)
    requires
        writable(k),
        vstd::utf8::valid_utf8(k),
        0 <= a,
        a + key_text(k).len() < s.len(),
        s.subrange(a, a + key_text(k).len()) == key_text(k),
        s[a + key_text(k).len()] == 0x20,
    ensures
        ident_spec(s, a) matches Ok((c, e, _)) && c == k && e == a + key_text(k).len(),
{
    if bare_key(k) {
        let e = a + k.len();
        assert forall|j: int| a <= j < e implies word_byte_spec(#[trigger] s[j]) by {
            assert(s[j] == s.subrange(a, e)[j - a]);
            if j > a {
                assert(alpha_spec(k[j - a]) || digit_spec(k[j - a]));
            }
        }
        assert(s[a] == k[0]);
        lemma_scan_word_exact(s, a, e);
        assert(s.subrange(a, e) =~= k);
    } else {
        lemma_quoted_at(s, a, k);
        assert(s[a] == quoted(k)[0]);
    }
}

proof fn lemma_flat_len(es: Seq<(Seq<u8>, Seq<u8>)>)
    ensures
        es.len() > 0 ==> flat_text(es).len() > 0 && flat_text(es)[0] == key_text(es[0].0)[0],
        es.len() > 0 ==> key_text(es[0].0).len() > 0,
{
    if es.len() > 0 {
        let k = es[0].0;
        if !bare_key(k) {
            assert(quoted(k)[0] == 0x22);
        }
        let t = entry_text(es[0].0, es[0].1);
        assert(flat_text(es) == t + flat_text(es.drop_first()));
        assert(t[0] == key_text(k)[0]);
    }
}

/// An entry as the encoder writes it, at `p` in `s`, reads as its key, its
/// separator and its value, which ends before the entry's newline.
#[verifier::rlimit(30)]
pub proof fn lemma_entry_at(s: Seq<u8>, p: int, key: Seq<u8>, val: Seq<u8>)
    requires
        writable(key) && writable(val) && vstd::utf8::valid_utf8(key) && vstd::utf8::valid_utf8(
            val,
        ),
        0 <= p,
        p + entry_text(key, val).len() <= s.len(),
        s.subrange(p, p + entry_text(key, val).len()) == entry_text(key, val),
    ensures
        ({
            let e1 = p + key_text(key).len();
            let e2 = p + entry_text(key, val).len() - 1;
            &&& ident_spec(s, p) matches Ok((c, e, _)) && c == key && e == e1
            &&& value_sep_spec(s, e1) == Ok::<int, crate::error::Error>(e1 + 3)
            &&& str_spec(s, e1 + 3) matches Ok((c, e, _)) && c == val && e == e2
            &&& s[e2] == 0x0a
        }),
{
    let kt = key_text(key);
    let qv = quoted(val);
    let et = entry_text(key, val);
    let e1 = p + kt.len();
    let e2 = e1 + 3 + qv.len();
    assert(et.len() == kt.len() + 3 + qv.len() + 1);
    assert forall|i: int| 0 <= i < et.len() implies s[p + i] == #[trigger] et[i] by {
        assert(s.subrange(p, p + et.len())[i] == s[p + i]);
    }
    assert(s.subrange(p, e1) =~= kt) by {
        assert forall|i: int| 0 <= i < kt.len() implies s.subrange(p, e1)[i] == kt[i] by {
            assert(et[i] == kt[i]);
        }
    }
    assert(s[e1] == 0x20) by {
        assert(et[kt.len() as int] == 0x20);
    }
    lemma_key_at(s, p, key);
    assert(s[e1 + 1] == 0x3d) by {
        assert(et[kt.len() as int + 1] == 0x3d);
    }
    assert(s[e1 + 2] == 0x20) by {
        assert(et[kt.len() as int + 2] == 0x20);
    }
    assert(s[e1 + 3] == 0x22) by {
        assert(et[kt.len() as int + 3] == qv[0]);
    }
    assert(skip_line(s, e1 + 1) == e1 + 1);
    assert(skip_line(s, e1) == e1 + 1);
    assert(skip_line(s, e1 + 3) == e1 + 3);
    assert(skip_line(s, e1 + 2) == e1 + 3);
    assert(s.subrange(e1 + 3, e2) =~= qv) by {
        assert forall|i: int| 0 <= i < qv.len() implies s.subrange(e1 + 3, e2)[i] == qv[i] by {
            assert(et[kt.len() as int + 3 + i] == qv[i]);
        }
    }
    assert(s[e2] == 0x0a) by {
        assert(et[et.len() - 1] == 0x0a);
    }
    lemma_quoted_at(s, e1 + 3, val);
}

/// The next key of the top-level map is found at `p`: the start of the input
/// on the first call, else right after the newline at `p - 1`.
proof fn lemma_next_key_at(s: Seq<u8>, p: int, first: bool)
    requires
        0 <= p < s.len(),
        first ==> p == 0,
        !first ==> p > 0 && s[p - 1] == 0x0a,
        !ws_spec(s[p]) && s[p] != 0x23,
    ensures
        top_key_spec(s, if first {
            0
        } else {
            p - 1
        }, first) == (Ok::<bool, crate::error::Error>(true), p),
{
    if first {
        assert(skip_any(s, 0, false) == 0);
    } else {
        assert(skip_nl(s, p, true, false) == (p, true));
        assert(skip_nl(s, p - 1, false, false) == (p, true));
    }
}

/// The first byte of what the encoder writes for a key starts a key.
pub proof fn lemma_key_start(k: Seq<u8>)
    ensures
        key_text(k).len() > 0,
        !ws_spec(key_text(k)[0]) && key_text(k)[0] != 0x23,
{
    if !bare_key(k) {
        assert(quoted(k)[0] == 0x22);
    }
}

proof fn lemma_flat_split(es: Seq<(Seq<u8>, Seq<u8>)>)
    requires
        es.len() > 0,
        flat_entries_ok(es),
    ensures
        flat_text(es) == entry_text(es[0].0, es[0].1) + flat_text(es.drop_first()),
        flat_entries_ok(es.drop_first()),
        writable(es[0].0) && writable(es[0].1) && vstd::utf8::valid_utf8(es[0].0)
            && vstd::utf8::valid_utf8(es[0].1),
        seq![(es[0].0, es[0].1)] + es.drop_first() == es,
{
    let rest = es.drop_first();
    assert forall|i: int| 0 <= i < rest.len() implies writable(#[trigger] rest[i].0) && writable(
        rest[i].1,
    ) && vstd::utf8::valid_utf8(rest[i].0) && vstd::utf8::valid_utf8(rest[i].1) by {
        assert(rest[i] == es[i + 1]);
        assert(writable(es[i + 1].0));
    }
    assert(writable(es[0].0));
    assert(seq![(es[0].0, es[0].1)] + rest =~= es);
}

#[verifier::rlimit(40)]
proof fn lemma_read_entries(pre: Seq<u8>, es: Seq<(Seq<u8>, Seq<u8>)>, first: bool)
    requires
        flat_entries_ok(es),
        first ==> pre.len() == 0,
        !first ==> pre.len() > 0 && pre.last() == 0x0a,
    ensures
        read_entries(pre + flat_text(es), if first {
            0
        } else {
            pre.len() - 1
        }, first) == Some(es),
    decreases es.len(),
{
    let s = pre + flat_text(es);
    let p = pre.len() as int;
    if es.len() == 0 {
        assert(s =~= pre);
        if !first {
            assert(skip_nl(s, p, true, false) == (p, true));
        }
    } else {
        lemma_flat_split(es);
        let key = es[0].0;
        let val = es[0].1;
        let rest = es.drop_first();
        let et = entry_text(key, val);
        let s2 = pre + et;
        assert(s =~= s2 + flat_text(rest));
        assert(s.subrange(p, p + et.len()) =~= et);
        lemma_key_start(key);
        assert(s[p] == key_text(key)[0]);
        lemma_next_key_at(s, p, first);
        lemma_entry_at(s, p, key, val);
        lemma_read_entries(s2, rest, false);
        assert(s2.last() == 0x0a);
    }
}

/// A top-level map of strings written by the encoder reads back, through the
/// decoder's requests, as the same entries in the same order.
pub proof fn law_flat_map_round_trip(es: Seq<(Seq<u8>, Seq<u8>)>)
    requires
        flat_entries_ok(es),
    ensures
        read_entries(flat_text(es), 0, true) == Some(es),
{
    lemma_read_entries(seq![], es, true);
    assert(Seq::<u8>::empty() + flat_text(es) =~= flat_text(es));
}

/// A canonical top-level map of strings, as the encoder writes it, reads back
/// as entries that the encoder writes as the very same text.
pub proof fn law_flat_map_canonical(es: Seq<(Seq<u8>, Seq<u8>)>)
    requires
        flat_entries_ok(es),
    ensures
        read_entries(flat_text(es), 0, true) matches Some(back) && flat_text(back) == flat_text(
            es,
        ),
{
    law_flat_map_round_trip(es);
}

/// Bytes as the encoder writes a sequence of integers: each in decimal and
/// followed by a space.
pub open spec fn dec_elems(b: Seq<u8>) -> Seq<u8>
    decreases b.len(),
{
    if b.len() == 0 {
        seq![]
    } else {
        int_text(b[0] as int) + seq![0x20u8] + dec_elems(b.drop_first())
    }
}

/// Bytes as the encoder writes them as a sequence: `[ `, the integers, `]`.
pub open spec fn byte_seq_text(b: Seq<u8>) -> Seq<u8> {
    seq![0x5bu8, 0x20u8] + dec_elems(b) + seq![0x5du8]
}

#[verifier::rlimit(30)]
proof fn lemma_byte_elems(pre: Seq<u8>, b: Seq<u8>, rest: Seq<u8>)
    requires
        pre.len() > 0,
        pre.last() == 0x20,
    ensures
        byte_elems_spec(pre + dec_elems(b) + seq![0x5du8] + rest, pre.len() - 1) == Ok::<
            (Seq<u8>, int),
            crate::de::Failure,
        >((b, pre.len() + dec_elems(b).len() + 1int)),
    decreases b.len(),
{
    let s = pre + dec_elems(b) + seq![0x5du8] + rest;
    let k = pre.len() - 1;
    let p = pre.len() as int;
    assert(s[k] == 0x20);
    if b.len() == 0 {
        assert(s[p] == 0x5d);
        assert(skip_sep(s, p, false) == p);
        assert(skip_sep(s, k, false) == p);
        assert(b =~= Seq::<u8>::empty());
    } else {
        let n = b[0];
        let t = int_text(n as int);
        let tail = b.drop_first();
        let pre2 = pre + t + seq![0x20u8];
        assert(dec_elems(b) == t + seq![0x20u8] + dec_elems(tail));
        assert(s =~= pre2 + dec_elems(tail) + seq![0x5du8] + rest);
        lemma_decimal(n as nat);
        assert(t == decimal(n as nat));
        let e = p + t.len();
        assert forall|i: int| p <= i < e implies digit_spec(#[trigger] s[i]) by {
            assert(s[i] == t[i - p]);
        }
        assert(s[e] == 0x20);
        assert(s[p] == t[0]);
        assert(skip_sep(s, p, false) == p);
        assert(skip_sep(s, k, false) == p);
        lemma_scan_digits(s, p, e);
        assert(!num_symbolic(s, p));
        assert(s.subrange(p, e) =~= t);
        law_int_text_reads_back(n as int, 0, 255);
        lemma_byte_elems(pre2, tail, rest);
        assert(pre2.len() - 1 == e);
        assert(seq![n] + tail =~= b);
    }
}

/// A bytes value written as a sequence of integers reads back as the same
/// bytes, not borrowed; written as a quoted string (when it holds no control
/// character without an escape, and is UTF-8 or not) it reads back as the
/// same bytes, borrowed exactly when no escape was written.
pub proof fn law_bytes_round_trip(b: Seq<u8>, rest: Seq<u8>)
    requires
        rest.len() == 0 || delim_spec(rest[0]),
    ensures
        bytes_request(byte_seq_text(b) + rest, 0) matches Ok((c, e, borrowed)) && c == b && e
            == byte_seq_text(b).len() && !borrowed,
        writable(b) ==> (bytes_request(quoted(b) + rest, 0) matches Ok((c, e, _)) && c == b && e
            == quoted(b).len()),
{
    let s = byte_seq_text(b) + rest;
    assert(s =~= seq![0x5bu8, 0x20u8] + dec_elems(b) + seq![0x5du8] + rest);
    lemma_byte_elems(seq![0x5bu8, 0x20u8], b, rest);
    assert(s[0] == 0x5b);
    if writable(b) {
        law_string_reads_back(b, rest);
        assert((quoted(b) + rest)[0] == 0x22);
    }
}

} // verus!
