//! The untyped value tree: what a document holds when no schema drives the
//! decoder, and how it is written back.

use vstd::prelude::*;
use crate::access::SeqAcc;
use crate::de::{
    AnyToken, Deserializer, NumKind, NumberToken, bool_of, number_spec, seq_close_spec, seq_next_spec,
    skip_sep, map_open_spec, ident_spec, is_quote, lemma_num_ascii,
    lemma_skip_any, lemma_skip_line, lemma_skip_sep, num_lex_spec, number_start, peek_line_spec, skip_any,
    skip_line, str_spec, word_lex_spec,
};
use crate::entry::{MapKeySerializer, MapValSerializer, NewtypeVariantSerializer};
use crate::error::Error;
use crate::access::value_sep_spec;
use crate::key::{KeyToken, MapKey, key_newtype_close_spec, key_newtype_open_spec};
use crate::nested::key_step;
use crate::tagged::newtype_open_spec;
use crate::read::{Read, lemma_scan_word, lemma_str_scan_end};
use crate::ser::{
    Serializer, int_text, key_text, lit_assign, lit_false, lit_map_open, lit_seq_open, lit_true,
    quoted, repeat,
};

verus! {

/// A mayfig value of any kind.
#[derive(Debug)]
pub enum Value {
    String(String),
    Number(NumberToken),
    Bool(bool),
    Sequence(Vec<Value>),
    /// entries in the order they were read
    Mapping(Vec<(Value, Value)>),
    /// a tag with its payload
    Tagged(String, Vec<Value>),
}

/// A number as a mathematical value: an integer of either sign, or a float as
/// the text it was read from.
pub enum VNum {
    U(u64),
    I(i64),
    F(Seq<u8>),
}

/// A value as a mathematical tree: strings as their UTF-8 bytes.
pub enum VModel {
    Str(Seq<u8>),
    Num(VNum),
    Bool(bool),
    List(Seq<VModel>),
    Entries(Seq<(VModel, VModel)>),
    Tag(Seq<u8>, Seq<VModel>),
}

pub open spec fn num_view(n: NumberToken) -> VNum {
    match n {
        NumberToken::U64(v) => VNum::U(v),
        NumberToken::I64(v) => VNum::I(v),
        NumberToken::Float(x) => VNum::F(vstd::utf8::encode_utf8(x@)),
    }
}

pub open spec fn kind_view(kind: NumKind, t: Seq<u8>) -> VNum {
    match kind {
        NumKind::U(v) => VNum::U(v),
        NumKind::I(v) => VNum::I(v),
        NumKind::F => VNum::F(t),
    }
}

/// The tree a value stands for.
pub open spec fn view_value(v: Value) -> VModel
    decreases v, 0int,
{
    match v {
        Value::String(t) => VModel::Str(vstd::utf8::encode_utf8(t@)),
        Value::Number(n) => VModel::Num(num_view(n)),
        Value::Bool(b) => VModel::Bool(b),
        Value::Sequence(items) => VModel::List(view_seq(items@)),
        Value::Mapping(es) => VModel::Entries(view_entries(es@)),
        Value::Tagged(t, items) => VModel::Tag(vstd::utf8::encode_utf8(t@), view_seq(items@)),
    }
}

pub open spec fn view_seq(s: Seq<Value>) -> Seq<VModel>
    decreases s, 1int,
{
    if s.len() == 0 {
        seq![]
    } else {
        view_seq(s.drop_last()).push(view_value(s.last()))
    }
}

pub open spec fn view_entries(s: Seq<(Value, Value)>) -> Seq<(VModel, VModel)>
    decreases s, 1int,
{
    if s.len() == 0 {
        seq![]
    } else {
        view_entries(s.drop_last()).push((view_value(s.last().0), view_value(s.last().1)))
    }
}

/// The elements of a sequence read from `p` on (after its `[`), up to its
/// `]`, where the cursor stops.
pub open spec fn m_elems(s: Seq<u8>, p: int) -> Option<(Seq<VModel>, int)>
    decreases s.len() - p, 3int,
{
    if p < 0 || p > s.len() {
        None
    } else {
        match seq_next_spec(s, p) {
            Err(_) => None,
            Ok(false) => Some((seq![], skip_sep(s, p, false))),
            Ok(true) => {
                let a = skip_sep(s, p, false);
                if p <= a {
                    match m_value(s, a, false) {
                        Some((v, e)) => if p < e <= s.len() {
                            match m_elems(s, e) {
                                Some((rest, e2)) => Some((seq![v] + rest, e2)),
                                None => None,
                            }
                        } else {
                            None
                        },
                        None => None,
                    }
                } else {
                    None
                }
            },
        }
    }
}

/// The entries of a map read from `p` on, through its next-key steps (of the
/// top-level map or a braced one), and where the cursor stops.
pub open spec fn m_entries(s: Seq<u8>, p: int, braced: bool, first: bool) -> Option<
    (Seq<(VModel, VModel)>, int),
>
    decreases s.len() - p, 1int,
{
    if p < 0 || p > s.len() {
        None
    } else {
        match key_step(s, p, first, braced) {
            (Ok(false), e) => Some((seq![], e)),
            (Ok(true), a) => if p <= a {
                match m_key(s, a) {
                    Some((kv, e1)) => match value_sep_spec(s, e1) {
                        Ok(vp) => if p < vp {
                            match m_value(s, vp, false) {
                                Some((vv, e2)) => if p < e2 <= s.len() {
                                    match m_entries(s, e2, braced, false) {
                                        Some((rest, e3)) => Some((seq![(kv, vv)] + rest, e3)),
                                        None => None,
                                    }
                                } else {
                                    None
                                },
                                None => None,
                            }
                        } else {
                            None
                        },
                        Err(_) => None,
                    },
                    None => None,
                }
            } else {
                None
            },
            (Err(_), _) => None,
        }
    }
}

/// The value read at `k` (`top`: no composite is open), and where the cursor
/// stops; `None` where reading fails.
pub open spec fn m_value(s: Seq<u8>, k: int, top: bool) -> Option<(VModel, int)>
    decreases s.len() - k, 2int,
{
    let a = skip_any(s, k, false);
    if k < 0 || k > s.len() || a < k || a >= s.len() {
        None
    } else if top || s[a] == 0x7b {
        match map_open_spec(s, a, if top {
            0
        } else {
            1
        }) {
            Ok((braced, e)) => if k <= e <= s.len() {
                match m_entries(s, e, braced, true) {
                    Some((es, e2)) => Some((VModel::Entries(es), e2)),
                    None => None,
                }
            } else {
                None
            },
            Err(_) => None,
        }
    } else if s[a] == 0x5b {
        match m_elems(s, a + 1) {
            Some((items, e)) => match seq_close_spec(s, e) {
                Ok(e2) => Some((VModel::List(items), e2)),
                Err(_) => None,
            },
            None => None,
        }
    } else if number_start(s[a]) {
        match number_spec(s, a) {
            Ok((kind, t, e)) => Some((VModel::Num(kind_view(kind, t)), e)),
            Err(_) => None,
        }
    } else if is_quote(s[a]) {
        match str_spec(s, a) {
            Ok((c, e, _)) => if peek_line_spec(s, e) == Ok::<Option<u8>, Error>(Some(0x5bu8)) {
                match newtype_open_spec(s, skip_line(s, e)) {
                    Ok((false, p2)) => if k < p2 <= s.len() {
                        match m_elems(s, p2) {
                            Some((items, e3)) => match seq_close_spec(s, e3) {
                                Ok(e4) => Some((VModel::Tag(c, items), e4)),
                                Err(_) => None,
                            },
                            None => None,
                        }
                    } else {
                        None
                    },
                    _ => None,
                }
            } else {
                Some((VModel::Str(c), skip_line(s, e)))
            },
            Err(_) => None,
        }
    } else {
        match word_lex_spec(s, a) {
            Ok((w, e)) => match bool_of(w) {
                Some(b) => Some((VModel::Bool(b), e)),
                None => None,
            },
            Err(_) => None,
        }
    }
}

/// The map key read at `k`, and where the cursor stops; `None` where reading
/// fails.
pub open spec fn m_key(s: Seq<u8>, k: int) -> Option<(VModel, int)>
    decreases s.len() - k, 0int,
{
    let a = skip_any(s, k, false);
    if k < 0 || k > s.len() || a < k || a >= s.len() {
        None
    } else if s[a] == 0x5b {
        match m_elems(s, a + 1) {
            Some((items, e)) => match seq_close_spec(s, e) {
                Ok(e2) => Some((VModel::List(items), e2)),
                Err(_) => None,
            },
            None => None,
        }
    } else if s[a] == 0x7b {
        None
    } else if number_start(s[a]) {
        match number_spec(s, a) {
            Ok((kind, t, e)) => Some((VModel::Num(kind_view(kind, t)), e)),
            Err(_) => None,
        }
    } else {
        match ident_spec(s, a) {
            Ok((c, e, _)) => if peek_line_spec(s, e) == Ok::<Option<u8>, Error>(Some(0x5bu8)) {
                match key_newtype_open_spec(s, skip_line(s, e)) {
                    Ok(p2) => if k < p2 <= s.len() {
                        match m_elems(s, p2) {
                            Some((items, e3)) => match key_newtype_close_spec(s, e3) {
                                Ok(e4) => Some((VModel::Tag(c, items), e4)),
                                Err(_) => None,
                            },
                            None => None,
                        }
                    } else {
                        None
                    },
                    Err(_) => None,
                }
            } else {
                Some((VModel::Str(c), skip_line(s, e)))
            },
            Err(_) => None,
        }
    }
}

/// The text a scalar is written as, when it is one.
pub open spec fn scalar_text(v: Value) -> Option<Seq<u8>> {
    match v {
        Value::String(t) => Some(quoted(vstd::utf8::encode_utf8(t@))),
        Value::Bool(b) => Some(
            if b {
                lit_true()
            } else {
                lit_false()
            },
        ),
        Value::Number(NumberToken::U64(n)) => Some(int_text(n as int)),
        Value::Number(NumberToken::I64(n)) => Some(int_text(n as int)),
        Value::Number(NumberToken::Float(t)) => Some(vstd::utf8::encode_utf8(t@)),
        _ => None,
    }
}

/// Skipping line whitespace twice stops where skipping once does.
proof fn lemma_skip_line_stays(s: Seq<u8>, k: int)
    requires
        0 <= k <= s.len(),
    ensures
        skip_line(s, skip_line(s, k)) == skip_line(s, k),
    decreases s.len() - k,
{
    if k < s.len() && crate::read::ws_line_spec(s[k]) {
        lemma_skip_line_stays(s, k + 1);
    }
}

/// An identifier is never empty.
proof fn lemma_ident_progress(s: Seq<u8>, a: int)
    requires
        0 <= a < s.len(),
        ident_spec(s, a) is Ok,
    ensures
        a < ident_spec(s, a)->Ok_0.1 <= s.len(),
{
    if s[a] == 0x22 || s[a] == 0x27 {
        lemma_str_scan_end(s, s[a], a + 1, seq![], false);
    } else {
        lemma_scan_word(s, a + 1);
    }
}

/// A value is never empty, but for the top-level map.
proof fn lemma_any_progress(s: Seq<u8>, a: int)
    requires
        0 <= a < s.len(),
    ensures
        num_lex_spec(s, a) matches Ok((t, e)) ==> e > a,
        str_spec(s, a) matches Ok((c, e, esc)) ==> e > a && skip_line(s, e) >= e,
        word_lex_spec(s, a) matches Ok((w, e)) ==> e == a + w.len(),
{
    lemma_num_ascii(s, a);
    lemma_scan_word(s, a);
    if str_spec(s, a) is Ok {
        lemma_str_scan_end(s, s[a], a + 1, seq![], false);
        lemma_skip_line(s, str_spec(s, a)->Ok_0.1);
    }
}

/// `[ `, then `body`, then `]`.
pub open spec fn bracketed(body: Seq<u8>) -> Seq<u8> {
    lit_seq_open() + body + seq![0x5du8]
}

/// What the encoder writes for a value with indentation unit `u` at level
/// `lv`: as the whole document (`top`) or as a sequence element. `None` where
/// it fails: a map used as a key, or maps nested past the largest level.
pub open spec fn enc_value(v: Value, u: Seq<u8>, lv: nat, top: bool) -> Option<Seq<u8>>
    decreases v, 0int,
{
    match v {
        Value::Sequence(items) => match enc_elems(items@, u, lv) {
            Some(t) => Some(bracketed(t)),
            None => None,
        },
        Value::Mapping(es) => if top && lv == 0 {
            enc_entries(es@, u, 0)
        } else if lv >= usize::MAX {
            None
        } else {
            match enc_entries(es@, u, lv + 1) {
                Some(t) => Some(lit_map_open() + t + repeat(u, lv) + seq![0x7du8]),
                None => None,
            }
        },
        Value::Tagged(tag, items) => match enc_elems(items@, u, lv) {
            Some(t) => Some(quoted(vstd::utf8::encode_utf8(tag@)) + seq![0x20u8] + bracketed(t)),
            None => None,
        },
        _ => scalar_text(v),
    }
}

/// What the encoder writes for a value as a map key.
pub open spec fn enc_key(v: Value, u: Seq<u8>, lv: nat) -> Option<Seq<u8>>
    decreases v, 0int,
{
    match v {
        Value::String(t) => Some(key_text(vstd::utf8::encode_utf8(t@))),
        Value::Sequence(items) => match enc_elems(items@, u, lv) {
            Some(t) => Some(bracketed(t)),
            None => None,
        },
        Value::Mapping(_) => None,
        Value::Tagged(tag, items) => match enc_elems(items@, u, lv) {
            Some(t) => Some(key_text(vstd::utf8::encode_utf8(tag@)) + seq![0x20u8] + bracketed(t)),
            None => None,
        },
        _ => scalar_text(v),
    }
}

/// What the encoder writes for a value after a map key, separator included.
pub open spec fn enc_map_value(v: Value, u: Seq<u8>, lv: nat) -> Option<Seq<u8>>
    decreases v, 0int,
{
    match v {
        Value::Sequence(items) => match enc_elems(items@, u, lv) {
            Some(t) => Some(lit_assign() + bracketed(t)),
            None => None,
        },
        Value::Mapping(es) => if lv >= usize::MAX {
            None
        } else {
            match enc_entries(es@, u, lv + 1) {
                Some(t) => Some(lit_map_open() + t + repeat(u, lv) + seq![0x7du8]),
                None => None,
            }
        },
        Value::Tagged(tag, items) => match enc_elems(items@, u, lv) {
            Some(t) => Some(
                lit_assign() + quoted(vstd::utf8::encode_utf8(tag@)) + seq![0x20u8] + bracketed(t),
            ),
            None => None,
        },
        _ => match scalar_text(v) {
            Some(t) => Some(lit_assign() + t),
            None => None,
        },
    }
}

/// The elements of a sequence, each followed by a space.
pub open spec fn enc_elems(xs: Seq<Value>, u: Seq<u8>, lv: nat) -> Option<Seq<u8>>
    decreases xs, 1int,
{
    if xs.len() == 0 {
        Some(seq![])
    } else {
        match (enc_elems(xs.drop_last(), u, lv), enc_value(xs.last(), u, lv, false)) {
            (Some(a), Some(b)) => Some(a + b + seq![0x20u8]),
            _ => None,
        }
    }
}

/// The entries of a map at level `lv`, each indented, ending in a newline.
pub open spec fn enc_entries(es: Seq<(Value, Value)>, u: Seq<u8>, lv: nat) -> Option<Seq<u8>>
    decreases es, 1int,
{
    if es.len() == 0 {
        Some(seq![])
    } else {
        match (
            enc_entries(es.drop_last(), u, lv),
            enc_key(es.last().0, u, lv),
            enc_map_value(es.last().1, u, lv),
        ) {
            (Some(a), Some(k), Some(v)) => Some(a + repeat(u, lv) + k + v + seq![0x0au8]),
            _ => None,
        }
    }
}

proof fn lemma_enc_elems_prefix(xs: Seq<Value>, u: Seq<u8>, lv: nat, i: int, j: int)
    requires
        0 <= i <= j <= xs.len(),
        enc_elems(xs.subrange(0, i), u, lv) is None,
    ensures
        enc_elems(xs.subrange(0, j), u, lv) is None,
    decreases j - i,
{
    if i < j {
        lemma_enc_elems_prefix(xs, u, lv, i, j - 1);
        assert(xs.subrange(0, j).drop_last() =~= xs.subrange(0, j - 1));
    }
}

proof fn lemma_enc_entries_prefix(es: Seq<(Value, Value)>, u: Seq<u8>, lv: nat, i: int, j: int)
    requires
        0 <= i <= j <= es.len(),
        enc_entries(es.subrange(0, i), u, lv) is None,
    ensures
        enc_entries(es.subrange(0, j), u, lv) is None,
    decreases j - i,
{
    if i < j {
        lemma_enc_entries_prefix(es, u, lv, i, j - 1);
        assert(es.subrange(0, j).drop_last() =~= es.subrange(0, j - 1));
    }
}

fn serialize_number(n: &NumberToken, ser: &mut Serializer)
    ensures
        final(ser).out() == old(ser).out() + scalar_text(Value::Number(*n))->Some_0,
        final(ser).indent_level == old(ser).indent_level,
        final(ser).indent@ == old(ser).indent@,
{
    match n {
        NumberToken::U64(v) => ser.serialize_u64(*v),
        NumberToken::I64(v) => ser.serialize_i64(*v),
        NumberToken::Float(t) => ser.serialize_float_text(t.as_str()),
    }
}

impl Value {
    /// Reads the elements of a sequence whose `[` was consumed, up to (not
    /// past) its `]`.
    #[verifier::rlimit(40)]
    fn deserialize_elements<'de, R: Read<'de>>(acc: &SeqAcc, de: &mut Deserializer<R>) -> (r:
        Result<Vec<Value>, Error>)
        requires
            old(de).wf(),
            old(de).indent > 0,
        ensures
            old(de).advanced(final(de)),
            r is Ok ==> final(de).indent == old(de).indent,
            match m_elems(old(de).input(), old(de).at()) {
                Some((ms, e)) => r matches Ok(v) && view_seq(v@) == ms && final(de).at() == e,
                None => r is Err,
            },
        decreases old(de).input().len() - old(de).at(), 3int,
    {
        let ghost s = de.input();
        let ghost k0 = de.at();
        let mut items: Vec<Value> = Vec::new();
        proof {
            de.read.lemma_wf();
            if let Some((rest, e)) = m_elems(s, k0) {
                assert(view_seq(items@) + rest =~= rest);
            }
        }
        loop
            invariant
                s == old(de).input(),
                k0 == old(de).at(),
                old(de).advanced(de),
                de.indent == old(de).indent,
                de.indent > 0,
                m_elems(s, k0) == (match m_elems(s, de.at()) {
                    Some((rest, e)) => Some((view_seq(items@) + rest, e)),
                    None => None::<(Seq<VModel>, int)>,
                }),
            decreases de.input().len() - de.at(),
        {
            let ghost p = de.at();
            proof {
                de.read.lemma_wf();
                lemma_skip_sep(s, p, false);
            }
            let more = match acc.next_element(de) {
                Ok(m) => m,
                Err(e) => {
                    return Err(e);
                },
            };
            if !more {
                proof {
                    assert(view_seq(items@) + Seq::<VModel>::empty() =~= view_seq(items@));
                }
                return Ok(items);
            }
            let v = Value::deserialize_nested(de)?;
            let ghost before = items@;
            items.push(v);
            proof {
                de.read.lemma_wf();
                assert(items@.drop_last() =~= before);
                assert(view_seq(items@) == view_seq(before).push(view_value(v)));
                if let Some((rest, e2)) = m_elems(s, de.at()) {
                    assert(view_seq(before) + (seq![view_value(v)] + rest) =~= view_seq(items@)
                        + rest);
                }
            }
        }
    }

    /// Reads a value below the top level, which never is empty.
    fn deserialize_nested<'de, R: Read<'de>>(de: &mut Deserializer<R>) -> (r: Result<
        Value,
        Error,
    >)
        requires
            old(de).wf(),
            old(de).indent > 0,
        ensures
            old(de).advanced(final(de)),
            r is Ok ==> final(de).indent == old(de).indent && final(de).at() > old(de).at(),
            match m_value(old(de).input(), old(de).at(), false) {
                Some((vm, e)) => r matches Ok(v) && view_value(v) == vm && final(de).at() == e,
                None => r is Err,
            },
        decreases old(de).input().len() - old(de).at(), 2int,
    {
        Value::deserialize_from(de)
    }

    /// Reads a value of any kind; at the top level, a map without braces.
    /// It succeeds exactly when the model `m_value` does, with its value and
    /// end.
    pub fn deserialize<'de, R: Read<'de>>(de: &mut Deserializer<R>) -> (r: Result<Value, Error>)
        requires
            old(de).wf(),
        ensures
            old(de).advanced(final(de)),
            r is Ok ==> final(de).indent == old(de).indent,
            r is Ok && old(de).indent > 0 ==> final(de).at() > old(de).at(),
            match m_value(old(de).input(), old(de).at(), old(de).indent == 0) {
                Some((vm, e)) => r matches Ok(v) && view_value(v) == vm && final(de).at() == e,
                None => r is Err,
            },
    {
        Value::deserialize_from(de)
    }

    #[verifier::rlimit(80)]
    fn deserialize_from<'de, R: Read<'de>>(de: &mut Deserializer<R>) -> (r: Result<Value, Error>)
        requires
            old(de).wf(),
        ensures
            old(de).advanced(final(de)),
            r is Ok ==> final(de).indent == old(de).indent,
            r is Ok && old(de).indent > 0 ==> final(de).at() > old(de).at(),
            match m_value(old(de).input(), old(de).at(), old(de).indent == 0) {
                Some((vm, e)) => r matches Ok(v) && view_value(v) == vm && final(de).at() == e,
                None => r is Err,
            },
        decreases old(de).input().len() - old(de).at(), 1int,
    {
        let ghost s = de.input();
        let ghost k = de.at();
        let ghost top = de.indent == 0;
        proof {
            de.read.lemma_wf();
            lemma_skip_any(s, k, false);
            if skip_any(s, k, false) < s.len() {
                lemma_any_progress(s, skip_any(s, k, false));
            }
        }
        let ghost a = skip_any(s, k, false);
        match de.deserialize_any() {
            Err(e) => {
                return Err(e);
            },
            Ok(AnyToken::Mapping(mut m)) => {
                let ghost braced = m.is_braced();
                proof {
                    de.read.lemma_wf();
                    assert(map_open_spec(s, a, old(de).indent as int) == map_open_spec(s, a, if top {
                        0
                    } else {
                        1
                    }));
                    if let Some((rest, e)) = m_entries(s, de.at(), braced, true) {
                        assert(view_entries(Seq::<(Value, Value)>::empty()) + rest =~= rest);
                    }
                }
                let mut entries: Vec<(Value, Value)> = Vec::new();
                loop
                    invariant
                        old(de).indent == 0 || (a < s.len() && s[a] == 0x7b),
                        a == skip_any(s, k, false),
                        s == old(de).input(),
                        k == old(de).at(),
                        top == (old(de).indent == 0),
                        old(de).advanced(de),
                        de.indent == old(de).indent + 1,
                        old(de).indent > 0 ==> de.at() > old(de).at(),
                        m.is_braced() == braced,
                        m_value(s, k, top) == (match m_entries(s, de.at(), braced, m.is_first()) {
                            Some((rest, e)) => Some(
                                (VModel::Entries(view_entries(entries@) + rest), e),
                            ),
                            None => None::<(VModel, int)>,
                        }),
                    decreases de.input().len() - de.at(),
                {
                    let ghost p = de.at();
                    let ghost first = m.is_first();
                    proof {
                        de.read.lemma_wf();
                        assert(m.key_spec(s, p) == key_step(s, p, first, braced));
                    }
                    let more = match m.next_key(de) {
                        Ok(x) => x,
                        Err(e) => {
                            return Err(e);
                        },
                    };
                    if !more {
                        proof {
                            assert(view_entries(entries@) + Seq::<(VModel, VModel)>::empty()
                                =~= view_entries(entries@));
                        }
                        return Ok(Value::Mapping(entries));
                    }
                    let key = Value::deserialize_key(de)?;
                    m.next_value(de)?;
                    let val = Value::deserialize_nested(de)?;
                    let ghost before = entries@;
                    entries.push((key, val));
                    proof {
                        de.read.lemma_wf();
                        assert(entries@.drop_last() =~= before);
                        assert(view_entries(entries@) == view_entries(before).push(
                            (view_value(key), view_value(val)),
                        ));
                        if let Some((rest, e3)) = m_entries(s, de.at(), braced, false) {
                            assert(view_entries(before) + (seq![(view_value(key), view_value(val))]
                                + rest) =~= view_entries(entries@) + rest);
                        }
                    }
                }
            },
            Ok(AnyToken::Sequence(acc)) => {
                let items = Value::deserialize_elements(&acc, de)?;
                acc.end(de)?;
                Ok(Value::Sequence(items))
            },
            Ok(AnyToken::Number(n)) => Ok(Value::Number(n)),
            Ok(AnyToken::Str(t)) => Ok(Value::String(t)),
            Ok(AnyToken::Bool(b)) => Ok(Value::Bool(b)),
            Ok(AnyToken::Tagged(mut acc)) => {
                let tag = acc.variant(de)?;
                proof {
                    let e = str_spec(s, a)->Ok_0.1;
                    lemma_skip_line_stays(s, e);
                }
                let tv = acc.newtype_variant(de)?;
                assert(!tv.is_map);
                let inner = SeqAcc::new(de.read.position());
                proof {
                    de.read.lemma_wf();
                }
                assert(de.at() > k);
                let items = Value::deserialize_elements(&inner, de)?;
                tv.end(de)?;
                Ok(Value::Tagged(tag, items))
            },
        }
    }

    /// The string, for a string value.
    pub fn as_str(&self) -> (r: Option<&str>)
        ensures
            match self {
                Value::String(t) => r matches Some(x) && x@ == t@,
                _ => r.is_none(),
            },
    {
        match self {
            Value::String(t) => Some(t.as_str()),
            _ => None,
        }
    }

    /// The number, for a number value.
    pub fn as_number(&self) -> (r: Option<&NumberToken>)
        ensures
            match self {
                Value::Number(n) => r == Some(n),
                _ => r.is_none(),
            },
    {
        match self {
            Value::Number(n) => Some(n),
            _ => None,
        }
    }

    /// The integer, for a number value that is an integer in `i64`'s range.
    pub fn as_i64(&self) -> (r: Option<i64>)
        ensures
            match self {
                Value::Number(n) => r == n.as_i64_spec(),
                _ => r.is_none(),
            },
    {
        match self {
            Value::Number(n) => n.as_i64(),
            _ => None,
        }
    }

    /// The boolean, for a boolean value.
    pub fn as_bool(&self) -> (r: Option<bool>)
        ensures
            match self {
                Value::Bool(b) => r == Some(*b),
                _ => r.is_none(),
            },
    {
        match self {
            Value::Bool(b) => Some(*b),
            _ => None,
        }
    }

    /// The elements, for a sequence value.
    pub fn as_seq(&self) -> (r: Option<&[Value]>)
        ensures
            match self {
                Value::Sequence(items) => r matches Some(x) && x@ == items@,
                _ => r.is_none(),
            },
    {
        match self {
            Value::Sequence(items) => Some(items.as_slice()),
            _ => None,
        }
    }

    /// The entries in order, for a map value.
    pub fn as_map(&self) -> (r: Option<&[(Value, Value)]>)
        ensures
            match self {
                Value::Mapping(entries) => r matches Some(x) && x@ == entries@,
                _ => r.is_none(),
            },
    {
        match self {
            Value::Mapping(entries) => Some(entries.as_slice()),
            _ => None,
        }
    }

    /// Writes the elements of a sequence, each followed by a space.
    fn serialize_elements(items: &Vec<Value>, ser: &mut Serializer) -> (r: Result<(), Error>)
        ensures
            final(ser).indent@ == old(ser).indent@,
            match enc_elems(items@, old(ser).indent@, old(ser).indent_level as nat) {
                Some(t) => r is Ok && final(ser).out() == old(ser).out() + t
                    && final(ser).indent_level == old(ser).indent_level,
                None => r is Err,
            },
        decreases items, 0int,
    {
        let ghost u = ser.indent@;
        let ghost lv = ser.indent_level as nat;
        let mut i: usize = 0;
        proof {
            assert(items@.subrange(0, 0) =~= Seq::<Value>::empty());
            assert(ser.out() =~= old(ser).out() + Seq::<u8>::empty());
        }
        while i < items.len()
            invariant
                i <= items@.len(),
                u == old(ser).indent@,
                lv == old(ser).indent_level as nat,
                ser.indent_level == old(ser).indent_level,
                ser.indent@ == old(ser).indent@,
                enc_elems(items@.subrange(0, i as int), u, lv) matches Some(t) && ser.out()
                    == old(ser).out() + t,
            decreases items@.len() - i,
        {
            proof {
                assert(decreases_to!(items => items[i as int]));
                assert(items@.subrange(0, i + 1).drop_last() =~= items@.subrange(0, i as int));
                assert(items@.subrange(0, i + 1).last() == items@[i as int]);
            }
            let ghost before = ser.out();
            match items[i].serialize_at(ser, false) {
                Ok(()) => {},
                Err(e) => {
                    proof {
                        lemma_enc_elems_prefix(items@, u, lv, i + 1, items@.len() as int);
                        assert(items@.subrange(0, items@.len() as int) =~= items@);
                    }
                    return Err(e);
                },
            }
            ser.end_element();
            i += 1;
            proof {
                let t = enc_elems(items@.subrange(0, i - 1), u, lv)->Some_0;
                let b = enc_value(items@[i - 1], u, lv, false)->Some_0;
                assert(ser.out() =~= old(ser).out() + (t + b + seq![0x20u8]));
            }
        }
        proof {
            assert(items@.subrange(0, i as int) =~= items@);
        }
        Ok(())
    }

    /// Writes the entries of a map, one per line, each at the current indentation.
    fn serialize_entries(entries: &Vec<(Value, Value)>, ser: &mut Serializer) -> (r: Result<
        (),
        Error,
    >)
        ensures
            final(ser).indent@ == old(ser).indent@,
            match enc_entries(entries@, old(ser).indent@, old(ser).indent_level as nat) {
                Some(t) => r is Ok && final(ser).out() == old(ser).out() + t
                    && final(ser).indent_level == old(ser).indent_level,
                None => r is Err,
            },
        decreases entries, 0int,
    {
        let ghost u = ser.indent@;
        let ghost lv = ser.indent_level as nat;
        let mut i: usize = 0;
        proof {
            assert(entries@.subrange(0, 0) =~= Seq::<(Value, Value)>::empty());
            assert(ser.out() =~= old(ser).out() + Seq::<u8>::empty());
        }
        while i < entries.len()
            invariant
                i <= entries@.len(),
                u == old(ser).indent@,
                lv == old(ser).indent_level as nat,
                ser.indent_level == old(ser).indent_level,
                ser.indent@ == old(ser).indent@,
                enc_entries(entries@.subrange(0, i as int), u, lv) matches Some(t) && ser.out()
                    == old(ser).out() + t,
            decreases entries@.len() - i,
        {
            proof {
                assert(decreases_to!(entries => entries[i as int]));
                assert(entries@.subrange(0, i + 1).drop_last() =~= entries@.subrange(0, i as int));
                assert(entries@.subrange(0, i + 1).last() == entries@[i as int]);
            }
            ser.indent();
            let (k, v) = &entries[i];
            let rk = k.serialize_key(ser);
            let rv = match rk {
                Ok(()) => v.serialize_map_value(ser),
                Err(e) => Err(e),
            };
            match rv {
                Ok(()) => {},
                Err(e) => {
                    proof {
                        lemma_enc_entries_prefix(entries@, u, lv, i + 1, entries@.len() as int);
                        assert(entries@.subrange(0, entries@.len() as int) =~= entries@);
                    }
                    return Err(e);
                },
            }
            ser.end_entry();
            i += 1;
            proof {
                let t = enc_entries(entries@.subrange(0, i - 1), u, lv)->Some_0;
                let kt = enc_key(entries@[i - 1].0, u, lv)->Some_0;
                let vt = enc_map_value(entries@[i - 1].1, u, lv)->Some_0;
                assert(ser.out() =~= old(ser).out() + (t + repeat(u, lv) + kt + vt + seq![
                    0x0au8,
                ]));
            }
        }
        proof {
            assert(entries@.subrange(0, i as int) =~= entries@);
        }
        Ok(())
    }

    /// Writes the value as the whole document: a map without braces at the
    /// top level. It succeeds exactly when `enc_value` is defined, writing
    /// that text.
    pub fn serialize(&self, ser: &mut Serializer) -> (r: Result<(), Error>)
        ensures
            final(ser).indent@ == old(ser).indent@,
            match enc_value(*self, old(ser).indent@, old(ser).indent_level as nat, true) {
                Some(t) => r is Ok && final(ser).out() == old(ser).out() + t
                    && final(ser).indent_level == old(ser).indent_level,
                None => r is Err,
            },
    {
        self.serialize_at(ser, true)
    }

    /// Writes the value as the document (`top`) or as a sequence element,
    /// where a map is always braced.
    #[verifier::rlimit(40)]
    fn serialize_at(&self, ser: &mut Serializer, top: bool) -> (r: Result<(), Error>)
        ensures
            final(ser).indent@ == old(ser).indent@,
            match enc_value(*self, old(ser).indent@, old(ser).indent_level as nat, top) {
                Some(t) => r is Ok && final(ser).out() == old(ser).out() + t
                    && final(ser).indent_level == old(ser).indent_level,
                None => r is Err,
            },
        decreases self, 1int,
    {
        match self {
            Value::String(t) => {
                ser.serialize_str(t.as_str());
                Ok(())
            },
            Value::Number(n) => {
                serialize_number(n, ser);
                Ok(())
            },
            Value::Bool(b) => {
                ser.serialize_bool(*b);
                Ok(())
            },
            Value::Sequence(items) => {
                ser.serialize_seq();
                Value::serialize_elements(items, ser)?;
                ser.end_seq();
                proof {
                    let t = enc_elems(items@, old(ser).indent@, old(ser).indent_level as nat)->Some_0;
                    assert(ser.out() =~= old(ser).out() + bracketed(t));
                }
                Ok(())
            },
            Value::Mapping(entries) => {
                if top && ser.indent_level == 0 {
                    ser.serialize_map();
                    Value::serialize_entries(entries, ser)
                } else {
                    if ser.indent_level == usize::MAX {
                        return Err(Error::custom("maps nested too deeply".to_owned()));
                    }
                    ser.indent_level = ser.indent_level + 1;
                    ser.serialize_map();
                    Value::serialize_entries(entries, ser)?;
                    ser.end_map();
                    proof {
                        let t = enc_entries(entries@, old(ser).indent@, old(ser).indent_level as nat + 1)->Some_0;
                        assert(ser.out() =~= old(ser).out() + (lit_map_open() + t + repeat(
                            old(ser).indent@,
                            old(ser).indent_level as nat,
                        ) + seq![0x7du8]));
                    }
                    Ok(())
                }
            },
            Value::Tagged(tag, items) => {
                ser.serialize_str(tag.as_str());
                NewtypeVariantSerializer::new().serialize_seq(ser);
                Value::serialize_elements(items, ser)?;
                ser.end_seq();
                proof {
                    let t = enc_elems(items@, old(ser).indent@, old(ser).indent_level as nat)->Some_0;
                    assert(ser.out() =~= old(ser).out() + (quoted(vstd::utf8::encode_utf8(tag@))
                        + seq![0x20u8] + bracketed(t)));
                }
                Ok(())
            },
        }
    }

    /// Writes the value as a map key; a map cannot be one.
    pub fn serialize_key(&self, ser: &mut Serializer) -> (r: Result<(), Error>)
        ensures
            final(ser).indent@ == old(ser).indent@,
            match enc_key(*self, old(ser).indent@, old(ser).indent_level as nat) {
                Some(t) => r is Ok && final(ser).out() == old(ser).out() + t
                    && final(ser).indent_level == old(ser).indent_level,
                None => r is Err,
            },
        decreases self, 1int,
    {
        let key = MapKeySerializer::new();
        match self {
            Value::String(t) => {
                key.serialize_str(ser, t.as_str());
                Ok(())
            },
            Value::Number(n) => {
                serialize_number(n, ser);
                Ok(())
            },
            Value::Bool(b) => {
                key.serialize_bool(ser, *b);
                Ok(())
            },
            Value::Sequence(items) => {
                key.serialize_seq(ser);
                Value::serialize_elements(items, ser)?;
                ser.end_seq();
                proof {
                    let t = enc_elems(items@, old(ser).indent@, old(ser).indent_level as nat)->Some_0;
                    assert(ser.out() =~= old(ser).out() + bracketed(t));
                }
                Ok(())
            },
            Value::Mapping(_) => key.serialize_map(),
            Value::Tagged(tag, items) => {
                key.serialize_tuple_variant(ser, tag.as_str());
                Value::serialize_elements(items, ser)?;
                ser.end_seq();
                proof {
                    let t = enc_elems(items@, old(ser).indent@, old(ser).indent_level as nat)->Some_0;
                    assert(ser.out() =~= old(ser).out() + (key_text(vstd::utf8::encode_utf8(tag@))
                        + seq![0x20u8] + bracketed(t)));
                }
                Ok(())
            },
        }
    }

    /// Writes the value after a map key, with its separator: ` = ` before
    /// scalars, sequences and tagged values, a braced block for a map.
    #[verifier::rlimit(40)]
    pub fn serialize_map_value(&self, ser: &mut Serializer) -> (r: Result<(), Error>)
        ensures
            final(ser).indent@ == old(ser).indent@,
            match enc_map_value(*self, old(ser).indent@, old(ser).indent_level as nat) {
                Some(t) => r is Ok && final(ser).out() == old(ser).out() + t
                    && final(ser).indent_level == old(ser).indent_level,
                None => r is Err,
            },
        decreases self, 1int,
    {
        let val = MapValSerializer::new();
        match self {
            Value::String(t) => {
                val.serialize_str(ser, t.as_str());
                Ok(())
            },
            Value::Number(n) => {
                match n {
                    NumberToken::U64(v) => val.serialize_i128(ser, *v as i128),
                    NumberToken::I64(v) => val.serialize_i128(ser, *v as i128),
                    NumberToken::Float(t) => val.serialize_float_text(ser, t.as_str()),
                }
                Ok(())
            },
            Value::Bool(b) => {
                val.serialize_bool(ser, *b);
                Ok(())
            },
            Value::Sequence(items) => {
                val.serialize_seq(ser);
                Value::serialize_elements(items, ser)?;
                ser.end_seq();
                proof {
                    let t = enc_elems(items@, old(ser).indent@, old(ser).indent_level as nat)->Some_0;
                    assert(ser.out() =~= old(ser).out() + (lit_assign() + bracketed(t)));
                }
                Ok(())
            },
            Value::Mapping(entries) => {
                if ser.indent_level == usize::MAX {
                    return Err(Error::custom("maps nested too deeply".to_owned()));
                }
                val.serialize_map(ser);
                Value::serialize_entries(entries, ser)?;
                ser.end_map();
                proof {
                    let t = enc_entries(entries@, old(ser).indent@, old(ser).indent_level as nat + 1)->Some_0;
                    assert(ser.out() =~= old(ser).out() + (lit_map_open() + t + repeat(
                        old(ser).indent@,
                        old(ser).indent_level as nat,
                    ) + seq![0x7du8]));
                }
                Ok(())
            },
            Value::Tagged(tag, items) => {
                val.serialize_newtype_variant(ser, tag.as_str());
                NewtypeVariantSerializer::new().serialize_seq(ser);
                Value::serialize_elements(items, ser)?;
                ser.end_seq();
                proof {
                    let t = enc_elems(items@, old(ser).indent@, old(ser).indent_level as nat)->Some_0;
                    assert(ser.out() =~= old(ser).out() + (lit_assign() + quoted(
                        vstd::utf8::encode_utf8(tag@),
                    ) + seq![0x20u8] + bracketed(t)));
                }
                Ok(())
            },
        }
    }

    /// Reads a map key of any kind: a sequence, a number, a string or
    /// identifier, or a tagged key.
    #[verifier::rlimit(30)]
    pub fn deserialize_key<'de, R: Read<'de>>(de: &mut Deserializer<R>) -> (r: Result<
        Value,
        Error,
    >)
        requires
            old(de).wf(),
        ensures
            old(de).advanced(final(de)),
            r is Ok ==> final(de).indent == old(de).indent && final(de).at() > old(de).at(),
            match m_key(old(de).input(), old(de).at()) {
                Some((vm, e)) => r matches Ok(v) && view_value(v) == vm && final(de).at() == e,
                None => r is Err,
            },
        decreases old(de).input().len() - old(de).at(), 0int,
    {
        let ghost s = de.input();
        let ghost k = de.at();
        proof {
            de.read.lemma_wf();
            lemma_skip_any(s, k, false);
            let a = skip_any(s, k, false);
            if a < s.len() {
                lemma_any_progress(s, a);
                if ident_spec(s, a) is Ok {
                    lemma_ident_progress(s, a);
                    lemma_skip_line(s, ident_spec(s, a)->Ok_0.1);
                    let l = skip_line(s, ident_spec(s, a)->Ok_0.1);
                    if l < s.len() {
                        lemma_skip_any(s, l + 1, false);
                    }
                }
            }
        }
        match MapKey::new().deserialize_any(de)? {
            KeyToken::Sequence(acc) => {
                proof {
                    de.read.lemma_wf();
                }
                assert(de.at() > k);
                assert(de.indent > 0);
                let items = Value::deserialize_elements(&acc, de)?;
                acc.end(de)?;
                Ok(Value::Sequence(items))
            },
            KeyToken::Number(n) => Ok(Value::Number(n)),
            KeyToken::Str(t) => Ok(Value::String(t)),
            KeyToken::Tagged(mut acc) => {
                let tag = acc.variant(de)?;
                acc.newtype_variant(de)?;
                proof {
                    de.read.lemma_wf();
                }
                let inner = SeqAcc::new(de.read.position());
                let items = Value::deserialize_elements(&inner, de)?;
                acc.newtype_end(de)?;
                Ok(Value::Tagged(tag, items))
            },
        }
    }
}

fn num_eq(a: &NumberToken, b: &NumberToken) -> (r: bool)
    ensures
        r == (num_view(*a) == num_view(*b)),
{
    broadcast use vstd::utf8::encode_utf8_decode_utf8;

    match (a, b) {
        (NumberToken::U64(x), NumberToken::U64(y)) => *x == *y,
        (NumberToken::I64(x), NumberToken::I64(y)) => *x == *y,
        (NumberToken::Float(x), NumberToken::Float(y)) => {
            let r = x.eq(y);
            proof {
                if vstd::utf8::encode_utf8(x@) == vstd::utf8::encode_utf8(y@) {
                    assert(vstd::utf8::decode_utf8(vstd::utf8::encode_utf8(x@)) == x@);
                    assert(vstd::utf8::decode_utf8(vstd::utf8::encode_utf8(y@)) == y@);
                }
            }
            r
        },
        _ => false,
    }
}

fn text_eq(a: &String, b: &String) -> (r: bool)
    ensures
        r == (vstd::utf8::encode_utf8(a@) == vstd::utf8::encode_utf8(b@)),
{
    broadcast use vstd::utf8::encode_utf8_decode_utf8;

    let r = a.eq(b);
    proof {
        if vstd::utf8::encode_utf8(a@) == vstd::utf8::encode_utf8(b@) {
            assert(vstd::utf8::decode_utf8(vstd::utf8::encode_utf8(a@)) == a@);
            assert(vstd::utf8::decode_utf8(vstd::utf8::encode_utf8(b@)) == b@);
        }
    }
    r
}

impl Value {
    fn seq_eq(a: &Vec<Value>, b: &Vec<Value>) -> (r: bool)
        ensures
            r == (view_seq(a@) == view_seq(b@)),
        decreases a, 0int,
    {
        if a.len() != b.len() {
            proof {
                lemma_view_seq_len(a@);
                lemma_view_seq_len(b@);
            }
            return false;
        }
        let mut i: usize = 0;
        while i < a.len()
            invariant
                a@.len() == b@.len(),
                i <= a@.len(),
                view_seq(a@.subrange(0, i as int)) == view_seq(b@.subrange(0, i as int)),
            decreases a@.len() - i,
        {
            proof {
                assert(decreases_to!(a => a[i as int]));
                assert(a@.subrange(0, i + 1).drop_last() =~= a@.subrange(0, i as int));
                assert(b@.subrange(0, i + 1).drop_last() =~= b@.subrange(0, i as int));
            }
            if !a[i].eq_value(&b[i]) {
                proof {
                    lemma_view_seq_index(a@, i as int);
                    lemma_view_seq_index(b@, i as int);
                }
                return false;
            }
            i += 1;
        }
        proof {
            assert(a@.subrange(0, i as int) =~= a@);
            assert(b@.subrange(0, i as int) =~= b@);
        }
        true
    }

    fn entries_eq(a: &Vec<(Value, Value)>, b: &Vec<(Value, Value)>) -> (r: bool)
        ensures
            r == (view_entries(a@) == view_entries(b@)),
        decreases a, 0int,
    {
        if a.len() != b.len() {
            proof {
                lemma_view_entries_len(a@);
                lemma_view_entries_len(b@);
            }
            return false;
        }
        let mut i: usize = 0;
        while i < a.len()
            invariant
                a@.len() == b@.len(),
                i <= a@.len(),
                view_entries(a@.subrange(0, i as int)) == view_entries(b@.subrange(0, i as int)),
            decreases a@.len() - i,
        {
            proof {
                assert(decreases_to!(a => a[i as int]));
                assert(a@.subrange(0, i + 1).drop_last() =~= a@.subrange(0, i as int));
                assert(b@.subrange(0, i + 1).drop_last() =~= b@.subrange(0, i as int));
            }
            let (ka, va) = &a[i];
            let (kb, vb) = &b[i];
            if !(ka.eq_value(kb) && va.eq_value(vb)) {
                proof {
                    lemma_view_entries_index(a@, i as int);
                    lemma_view_entries_index(b@, i as int);
                }
                return false;
            }
            i += 1;
        }
        proof {
            assert(a@.subrange(0, i as int) =~= a@);
            assert(b@.subrange(0, i as int) =~= b@);
        }
        true
    }

    /// Whether two values stand for the same tree.
    fn eq_value(&self, other: &Value) -> (r: bool)
        ensures
            r == (view_value(*self) == view_value(*other)),
        decreases self, 1int,
    {
        match (self, other) {
            (Value::String(a), Value::String(b)) => text_eq(a, b),
            (Value::Number(a), Value::Number(b)) => num_eq(a, b),
            (Value::Bool(a), Value::Bool(b)) => *a == *b,
            (Value::Sequence(a), Value::Sequence(b)) => Value::seq_eq(a, b),
            (Value::Mapping(a), Value::Mapping(b)) => Value::entries_eq(a, b),
            (Value::Tagged(ta, a), Value::Tagged(tb, b)) => text_eq(ta, tb) && Value::seq_eq(a, b),
            _ => false,
        }
    }
}

proof fn lemma_view_seq_len(s: Seq<Value>)
    ensures
        view_seq(s).len() == s.len(),
    decreases s.len(),
{
    if s.len() > 0 {
        lemma_view_seq_len(s.drop_last());
    }
}

/// The tree of each element is the element of the trees.
proof fn lemma_view_seq_index(s: Seq<Value>, i: int)
    requires
        0 <= i < s.len(),
    ensures
        view_seq(s).len() == s.len(),
        view_seq(s)[i] == view_value(s[i]),
        forall|j: int| 0 <= j <= s.len() ==> #[trigger] view_seq(s.subrange(0, j)).len() == j,
        view_seq(s.subrange(0, i + 1)) == view_seq(s.subrange(0, i as int)).push(view_value(s[i])),
    decreases s.len(),
{
    lemma_view_seq_len(s);
    assert forall|j: int| 0 <= j <= s.len() implies #[trigger] view_seq(s.subrange(0, j)).len()
        == j by {
        lemma_view_seq_len(s.subrange(0, j));
    }
    assert(s.subrange(0, i + 1).drop_last() =~= s.subrange(0, i as int));
    if i < s.len() - 1 {
        lemma_view_seq_index(s.drop_last(), i);
        assert(s.drop_last().subrange(0, i + 1) =~= s.subrange(0, i + 1));
        assert(s.drop_last()[i] == s[i]);
    }
}

proof fn lemma_view_entries_len(s: Seq<(Value, Value)>)
    ensures
        view_entries(s).len() == s.len(),
    decreases s.len(),
{
    if s.len() > 0 {
        lemma_view_entries_len(s.drop_last());
    }
}

proof fn lemma_view_entries_index(s: Seq<(Value, Value)>, i: int)
    requires
        0 <= i < s.len(),
    ensures
        view_entries(s).len() == s.len(),
        view_entries(s)[i] == (view_value(s[i].0), view_value(s[i].1)),
        view_entries(s.subrange(0, i + 1)) == view_entries(s.subrange(0, i as int)).push(
            (view_value(s[i].0), view_value(s[i].1)),
        ),
    decreases s.len(),
{
    lemma_view_entries_len(s);
    assert(s.subrange(0, i + 1).drop_last() =~= s.subrange(0, i as int));
    if i < s.len() - 1 {
        lemma_view_entries_index(s.drop_last(), i);
        assert(s.drop_last()[i] == s[i]);
    }
}

impl PartialEq for Value {
    /// Equal exactly when both stand for the same tree: entries and elements
    /// in the same order.
    fn eq(&self, other: &Value) -> (r: bool) {
        self.eq_value(other)
    }
}

impl vstd::std_specs::cmp::PartialEqSpecImpl for Value {
    open spec fn obeys_eq_spec() -> bool {
        true
    }

    open spec fn eq_spec(&self, other: &Value) -> bool {
        view_value(*self) == view_value(*other)
    }
}

} // verus!
