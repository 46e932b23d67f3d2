//! Nested maps of strings: written by the encoder with tab indentation and
//! braces, and read back through the decoder's requests.

use vstd::prelude::*;
use crate::access::{braced_key_spec, top_key_spec, value_sep_spec};
use crate::de::{ident_spec, map_open_spec, skip_any, skip_line, skip_nl, str_spec};
use crate::laws::{entry_text, lemma_entry_at, lemma_key_at, lemma_key_start, writable};
use crate::read::ws_spec;
use crate::ser::{key_text, lit_assign, lit_map_open, quoted};

verus! {

/// A map whose values are strings or maps of the same kind.
pub enum Tree {
    Leaf(Seq<u8>),
    Node(Seq<(Seq<u8>, Tree)>),
}

/// `n` tabs.
pub open spec fn tabs(n: nat) -> Seq<u8>
    decreases n,
{
    if n == 0 {
        seq![]
    } else {
        tabs((n - 1) as nat).push(0x09u8)
    }
}

/// An entry at level `lv` whose value is a string: indentation, key, ` = `,
/// the quoted string, a newline.
pub open spec fn leaf_text(lv: nat, k: Seq<u8>, v: Seq<u8>) -> Seq<u8> {
    tabs(lv) + key_text(k) + lit_assign() + quoted(v) + seq![0x0au8]
}

/// An entry at level `lv` whose value is a map with entries written as
/// `inner`: indentation, key, ` {`, a newline, the entries, `}` at this level.
pub open spec fn node_text(lv: nat, k: Seq<u8>, inner: Seq<u8>) -> Seq<u8> {
    tabs(lv) + key_text(k) + lit_map_open() + inner + tabs(lv) + seq![0x7du8, 0x0au8]
}

/// The entries of a map at nesting level `lv`, as the encoder writes them with
/// one tab per level.
#[verifier::opaque]
pub open spec fn entries_text(lv: nat, es: Seq<(Seq<u8>, Tree)>) -> Seq<u8>
    decreases es,
{
    if es.len() == 0 {
        seq![]
    } else {
        (match es[0].1 {
            Tree::Leaf(v) => leaf_text(lv, es[0].0, v),
            Tree::Node(inner) => node_text(lv, es[0].0, entries_text(lv + 1, inner)),
        }) + entries_text(lv, es.drop_first())
    }
}

/// One entry at level `lv`.
pub open spec fn entry_text_at(lv: nat, k: Seq<u8>, t: Tree) -> Seq<u8> {
    match t {
        Tree::Leaf(v) => leaf_text(lv, k, v),
        Tree::Node(es) => node_text(lv, k, entries_text(lv + 1, es)),
    }
}

/// Keys and strings that can be written and read back, all through the tree.
pub open spec fn tree_ok(es: Seq<(Seq<u8>, Tree)>) -> bool
    decreases es, 0int,
{
    if es.len() == 0 {
        true
    } else {
        entry_ok(es[0].0, es[0].1) && tree_ok(es.drop_first())
    }
}

pub open spec fn entry_ok(k: Seq<u8>, t: Tree) -> bool
    decreases t, 1int,
{
    writable(k) && vstd::utf8::valid_utf8(k) && match t {
        Tree::Leaf(v) => writable(v) && vstd::utf8::valid_utf8(v),
        Tree::Node(es) => tree_ok(es),
    }
}

/// Where the next key of a map is looked for from `k`, by kind of map.
pub open spec fn key_step(s: Seq<u8>, k: int, first: bool, braced: bool) -> (Result<bool, crate::error::Error>, int) {
    if braced {
        braced_key_spec(s, k, first)
    } else {
        top_key_spec(s, k, first)
    }
}

/// The entries a consumer of nested maps of strings reads from `k` on, through
/// the decoder's requests, and where it stops: after the closing `}` of a
/// braced map, at the end of the top-level one.
#[verifier::opaque]
pub open spec fn read_map(s: Seq<u8>, k: int, first: bool, braced: bool) -> Option<(Seq<(Seq<u8>, Tree)>, int)>
    decreases s.len() - k,
{
    match key_step(s, k, first, braced) {
        (Ok(false), e) => Some((seq![], e)),
        (Ok(true), a) => match ident_spec(s, a) {
            Ok((key, e1, _)) => match value_sep_spec(s, e1) {
                Ok(vpos) => if vpos < s.len() && s[vpos] == 0x7b {
                    match map_open_spec(s, vpos, 1) {
                        Ok((true, inner)) => if k < inner <= s.len() {
                            match read_map(s, inner, true, true) {
                                Some((es, e2)) => if inner < e2 <= s.len() {
                                    match read_map(s, e2, false, braced) {
                                        Some((rest, e3)) => Some((seq![(key, Tree::Node(es))] + rest, e3)),
                                        None => None,
                                    }
                                } else {
                                    None
                                },
                                None => None,
                            }
                        } else {
                            None
                        },
                        _ => None,
                    }
                } else {
                    match str_spec(s, vpos) {
                        Ok((val, e2, _)) => if k < e2 <= s.len() {
                            match read_map(s, e2, false, braced) {
                                Some((rest, e3)) => Some((seq![(key, Tree::Leaf(val))] + rest, e3)),
                                None => None,
                            }
                        } else {
                            None
                        },
                        Err(_) => None,
                    }
                },
                Err(_) => None,
            },
            Err(_) => None,
        },
        _ => None,
    }
}

proof fn lemma_tabs(n: nat)
    ensures
        tabs(n).len() == n,
        forall|i: int| 0 <= i < n ==> #[trigger] tabs(n)[i] == 0x09,
    decreases n,
{
    if n > 0 {
        lemma_tabs((n - 1) as nat);
    }
}

/// From a newline (or the start), skipping `n` tabs reaches byte `j`.
proof fn lemma_skip_tabs(s: Seq<u8>, i: int, j: int)
    requires
        0 <= i <= j < s.len(),
        forall|x: int| i <= x < j ==> #[trigger] s[x] == 0x09,
        !ws_spec(s[j]) && s[j] != 0x23,
    ensures
        skip_any(s, i, false) == j,
        skip_nl(s, i, true, false) == (j, true),
    decreases j - i,
{
    if i < j {
        lemma_skip_tabs(s, i + 1, j);
    }
}

/// Looking for the next key from `k`, a newline (or the start of the input),
/// finds the byte `j` after `lv` tabs when it starts a key, or closes the map
/// when it is `}`.
proof fn lemma_key_step(s: Seq<u8>, k: int, j: int, first: bool, braced: bool)
    requires
        0 <= k < j < s.len() || (k == 0 && j == 0 && j < s.len() && first && !braced),
        !(k == 0 && j == 0) ==> s[k] == 0x0a,
        forall|x: int| k < x < j ==> #[trigger] s[x] == 0x09,
        !ws_spec(s[j]) && s[j] != 0x23,
        !braced ==> s[j] != 0x7d,
    ensures
        key_step(s, k, first, braced) == if s[j] == 0x7d {
            (Ok::<bool, crate::error::Error>(false), j + 1)
        } else {
            (Ok::<bool, crate::error::Error>(true), j)
        },
{
    if k == 0 && j == 0 {
        assert(skip_any(s, 0, false) == 0);
    } else {
        lemma_skip_tabs(s, k + 1, j);
        assert(skip_nl(s, k, false, false) == (j, true));
        assert(skip_any(s, k, false) == j);
        assert(skip_line(s, k) == k);
    }
}

/// A top-level map that ends at the input's end, after a newline, is closed.
proof fn lemma_top_end(s: Seq<u8>, k: int, first: bool)
    requires
        (first && k == 0 && s.len() == 0) || (!first && 0 <= k && k + 1 == s.len() && s[k]
            == 0x0a),
    ensures
        top_key_spec(s, k, first) == (Ok::<bool, crate::error::Error>(false), s.len() as int),
{
    if !first {
        assert(skip_nl(s, k + 1, true, false) == (s.len() as int, true));
    }
}

proof fn lemma_tree_split(es: Seq<(Seq<u8>, Tree)>, lv: nat)
    requires
        es.len() > 0,
        tree_ok(es),
    ensures
        entries_text(lv, es) == entry_text_at(lv, es[0].0, es[0].1) + entries_text(
            lv,
            es.drop_first(),
        ),
        entry_ok(es[0].0, es[0].1),
        tree_ok(es.drop_first()),
        seq![(es[0].0, es[0].1)] + es.drop_first() == es,
{
    reveal_with_fuel(entries_text, 1);
    assert(seq![(es[0].0, es[0].1)] + es.drop_first() =~= es);
}

/// One step of reading: a key, then a string value, then the rest.
proof fn lemma_unfold_leaf(
    s: Seq<u8>,
    k: int,
    first: bool,
    braced: bool,
    j: int,
    e1: int,
    key: Seq<u8>,
    v: Seq<u8>,
    e2: int,
    rest: Seq<(Seq<u8>, Tree)>,
    end: int,
)
    requires
        key_step(s, k, first, braced) == (Ok::<bool, crate::error::Error>(true), j),
        ident_spec(s, j) matches Ok((c, e, _)) && c == key && e == e1,
        value_sep_spec(s, e1) == Ok::<int, crate::error::Error>(e1 + 3),
        e1 + 3 < s.len() && s[e1 + 3] == 0x22,
        str_spec(s, e1 + 3) matches Ok((c, e, _)) && c == v && e == e2,
        k < e2 <= s.len(),
        read_map(s, e2, false, braced) == Some((rest, end)),
    ensures
        read_map(s, k, first, braced) == Some((seq![(key, Tree::Leaf(v))] + rest, end)),
{
    reveal(read_map);
}

/// Reading ends where the next key step closes the map.
proof fn lemma_unfold_end(s: Seq<u8>, k: int, first: bool, braced: bool, end: int)
    requires
        key_step(s, k, first, braced) == (Ok::<bool, crate::error::Error>(false), end),
    ensures
        read_map(s, k, first, braced) == Some((Seq::<(Seq<u8>, Tree)>::empty(), end)),
{
    reveal(read_map);
}

/// One step of reading: a key, then a braced map, then the rest.
proof fn lemma_unfold_node(
    s: Seq<u8>,
    k: int,
    first: bool,
    braced: bool,
    j: int,
    e1: int,
    key: Seq<u8>,
    inner: Seq<(Seq<u8>, Tree)>,
    e_in: int,
    rest: Seq<(Seq<u8>, Tree)>,
    end: int,
)
    requires
        key_step(s, k, first, braced) == (Ok::<bool, crate::error::Error>(true), j),
        ident_spec(s, j) matches Ok((c, e, _)) && c == key && e == e1,
        value_sep_spec(s, e1) == Ok::<int, crate::error::Error>(e1 + 1),
        e1 + 1 < s.len() && s[e1 + 1] == 0x7b,
        map_open_spec(s, e1 + 1, 1) == Ok::<(bool, int), crate::error::Error>((true, e1 + 2)),
        k < e1 + 2 <= s.len(),
        read_map(s, e1 + 2, true, true) == Some((inner, e_in)),
        e1 + 2 < e_in <= s.len(),
        read_map(s, e_in, false, braced) == Some((rest, end)),
    ensures
        read_map(s, k, first, braced) == Some((seq![(key, Tree::Node(inner))] + rest, end)),
{
    reveal(read_map);
}

/// What the encoder writes before a braced map's entries reads as the key,
/// its separator and the opening of the map.
proof fn lemma_node_head(s: Seq<u8>, j: int, key: Seq<u8>)
    requires
        writable(key),
        vstd::utf8::valid_utf8(key),
        0 <= j,
        j + key_text(key).len() + 3 <= s.len(),
        s.subrange(j, j + key_text(key).len() + 3) == key_text(key) + lit_map_open(),
    ensures
        ({
            let e1 = j + key_text(key).len();
            &&& ident_spec(s, j) matches Ok((c, e, _)) && c == key && e == e1
            &&& value_sep_spec(s, e1) == Ok::<int, crate::error::Error>(e1 + 1)
            &&& s[e1 + 1] == 0x7b
            &&& s[e1 + 2] == 0x0a
            &&& map_open_spec(s, e1 + 1, 1) == Ok::<(bool, int), crate::error::Error>(
                (true, e1 + 2),
            )
        }),
{
    let kt = key_text(key);
    let e1 = j + kt.len();
    let h = kt + lit_map_open();
    assert forall|x: int| 0 <= x < h.len() implies s[j + x] == #[trigger] h[x] by {
        assert(s.subrange(j, j + h.len())[x] == s[j + x]);
    }
    assert(s.subrange(j, e1) =~= kt);
    assert(s[e1] == h[kt.len() as int]);
    assert(s[e1 + 1] == h[kt.len() as int + 1]);
    assert(s[e1 + 2] == h[kt.len() as int + 2]);
    lemma_key_at(s, j, key);
    assert(skip_line(s, e1 + 1) == e1 + 1);
    assert(skip_line(s, e1) == e1 + 1);
    assert(skip_any(s, e1 + 1, false) == e1 + 1);
}

/// An empty map's entries: the top-level one ends the input, a braced one
/// ends at its `}`.
proof fn lemma_read_map_empty(pre: Seq<u8>, lv: nat, more: Seq<u8>, first: bool, braced: bool)
    requires
        braced ==> lv >= 1,
        !braced ==> lv == 0 && more.len() == 0,
        first && !braced ==> pre.len() == 0,
        !(first && !braced) ==> pre.len() > 0 && pre.last() == 0x0a,
    ensures
        ({
            let post = if braced {
                tabs((lv - 1) as nat) + seq![0x7du8, 0x0au8] + more
            } else {
                Seq::<u8>::empty()
            };
            let s = pre + post;
            let k = if first && !braced {
                0
            } else {
                pre.len() - 1
            };
            key_step(s, k, first, braced) == (Ok::<bool, crate::error::Error>(false), if braced {
                (pre.len() + lv) as int
            } else {
                s.len() as int
            })
        }),
{
    let post = if braced {
        tabs((lv - 1) as nat) + seq![0x7du8, 0x0au8] + more
    } else {
        Seq::<u8>::empty()
    };
    let s = pre + post;
    let k = if first && !braced {
        0
    } else {
        pre.len() - 1
    };
    let p = pre.len() as int;
    if braced {
        lemma_tabs((lv - 1) as nat);
        let j = p + lv - 1;
        assert forall|x: int| k < x < j implies #[trigger] s[x] == 0x09 by {
            assert(s[x] == tabs((lv - 1) as nat)[x - p]);
        }
        assert(s[j] == 0x7d);
        lemma_key_step(s, k, j, first, braced);
    } else {
        assert(s =~= pre);
        lemma_top_end(s, k, first);
    }
}

/// A non-empty map's next key is found after the entry's indentation.
proof fn lemma_first_key(s: Seq<u8>, pre: Seq<u8>, lv: nat, key: Seq<u8>, k: int, first: bool, braced: bool)
    requires
        s.len() > pre.len() + lv + key_text(key).len(),
        s.subrange(0, pre.len() as int) == pre,
        s.subrange(pre.len() as int, (pre.len() + lv + key_text(key).len()) as int) == tabs(lv)
            + key_text(key),
        first && !braced ==> pre.len() == 0 && lv == 0 && k == 0,
        !(first && !braced) ==> pre.len() > 0 && pre.last() == 0x0a && k == pre.len() - 1,
    ensures
        key_step(s, k, first, braced) == (Ok::<bool, crate::error::Error>(true), (pre.len() + lv) as int),
{
    let p = pre.len() as int;
    let j = p + lv;
    let h = tabs(lv) + key_text(key);
    lemma_tabs(lv);
    lemma_key_start(key);
    assert forall|x: int| 0 <= x < h.len() implies s[p + x] == #[trigger] h[x] by {
        assert(s.subrange(p, p + h.len())[x] == s[p + x]);
    }
    assert forall|x: int| k < x < j implies #[trigger] s[x] == 0x09 by {
        assert(s[x] == h[x - p]);
    }
    assert(s[j] == h[lv as int]);
    if !(first && !braced) {
        assert(s[k] == pre.last()) by {
            assert(s.subrange(0, p)[k] == s[k]);
        }
    }
    assert(key_text(key)[0] != 0x7d) by {
        if !crate::ser::bare_key(key) {
            assert(quoted(key)[0] == 0x22);
        }
    }
    lemma_key_step(s, k, j, first, braced);
}

/// The text before, in and after a map's entries at level `lv`.
pub open spec fn map_post(lv: nat, more: Seq<u8>, braced: bool) -> Seq<u8> {
    if braced {
        tabs((lv - 1) as nat) + seq![0x7du8, 0x0au8] + more
    } else {
        Seq::<u8>::empty()
    }
}

pub open spec fn map_start(pre: Seq<u8>, first: bool, braced: bool) -> int {
    if first && !braced {
        0
    } else {
        pre.len() - 1
    }
}

pub open spec fn map_end(pre: Seq<u8>, lv: nat, es: Seq<(Seq<u8>, Tree)>, more: Seq<u8>, braced: bool) -> int {
    if braced {
        (pre.len() + entries_text(lv, es).len() + lv) as int
    } else {
        (pre.len() + entries_text(lv, es).len()) as int
    }
}

pub open spec fn map_ctx_ok(pre: Seq<u8>, lv: nat, more: Seq<u8>, first: bool, braced: bool) -> bool {
    &&& braced ==> lv >= 1
    &&& !braced ==> lv == 0 && more.len() == 0
    &&& first && !braced ==> pre.len() == 0
    &&& !(first && !braced) ==> pre.len() > 0 && pre.last() == 0x0a
}

proof fn lemma_entry_ends_line(lv: nat, key: Seq<u8>, t: Tree)
    ensures
        entry_text_at(lv, key, t).len() > 0,
        entry_text_at(lv, key, t).last() == 0x0a,
{
}

/// The step for an entry whose value is a string, given what reading the
/// rest gives.
#[verifier::rlimit(40)]
proof fn lemma_leaf_case(
    pre: Seq<u8>,
    lv: nat,
    key: Seq<u8>,
    v: Seq<u8>,
    rest: Seq<(Seq<u8>, Tree)>,
    more: Seq<u8>,
    first: bool,
    braced: bool,
)
    requires
        map_ctx_ok(pre, lv, more, first, braced),
        entry_ok(key, Tree::Leaf(v)),
        ({
            let pre2 = pre + entry_text_at(lv, key, Tree::Leaf(v));
            let s = pre2 + entries_text(lv, rest) + map_post(lv, more, braced);
            read_map(s, pre2.len() - 1, false, braced) == Some(
                (rest, map_end(pre2, lv, rest, more, braced)),
            )
        }),
    ensures
        ({
            let e0 = entry_text_at(lv, key, Tree::Leaf(v));
            let s = pre + e0 + entries_text(lv, rest) + map_post(lv, more, braced);
            read_map(s, map_start(pre, first, braced), first, braced) == Some(
                (seq![(key, Tree::Leaf(v))] + rest, map_end(pre + e0, lv, rest, more, braced)),
            )
        }),
{
    let e0 = entry_text_at(lv, key, Tree::Leaf(v));
    let pre2 = pre + e0;
    let s = pre2 + entries_text(lv, rest) + map_post(lv, more, braced);
    assert(s =~= pre + e0 + entries_text(lv, rest) + map_post(lv, more, braced));
    let k = map_start(pre, first, braced);
    let p = pre.len() as int;
    let kt = key_text(key);
    let et = entry_text(key, v);
    lemma_tabs(lv);
    assert(e0 =~= tabs(lv) + et);
    let j = p + lv;
    assert(s.subrange(0, p) =~= pre);
    assert(s.subrange(p, j + kt.len()) =~= tabs(lv) + kt);
    lemma_first_key(s, pre, lv, key, k, first, braced);
    assert(s.subrange(j, j + et.len()) =~= et);
    lemma_entry_at(s, j, key, v);
    let e1 = j + kt.len();
    assert(s[e1 + 3] == 0x22) by {
        assert(quoted(v)[0] == 0x22);
        assert(s[e1 + 3] == et[kt.len() as int + 3]);
    }
    let e2 = p + lv + et.len() - 1;
    assert(pre2.len() - 1 == e2);
    lemma_unfold_leaf(s, k, first, braced, j, e1, key, v, e2, rest, map_end(
        pre2,
        lv,
        rest,
        more,
        braced,
    ));
}

/// Where the parts of an entry whose value is a map stand in the text.
#[verifier::rlimit(40)]
proof fn lemma_node_layout(pre: Seq<u8>, lv: nat, key: Seq<u8>, ein: Seq<u8>, after: Seq<u8>)
    ensures
        ({
            let kt = key_text(key);
            let mo = lit_map_open();
            let s = pre + node_text(lv, key, ein) + after;
            let p = pre.len() as int;
            let j = p + lv;
            let pre_in = pre + tabs(lv) + kt + mo;
            &&& s.subrange(0, p) == pre
            &&& s.subrange(p, j + kt.len()) == tabs(lv) + kt
            &&& s.subrange(j, j + kt.len() + 3) == kt + mo
            &&& s == pre_in + ein + (tabs(lv) + seq![0x7du8, 0x0au8] + after)
            &&& pre_in.len() == j + kt.len() + 3
        }),
{
    let kt = key_text(key);
    let mo = lit_map_open();
    let s = pre + node_text(lv, key, ein) + after;
    let p = pre.len() as int;
    let j = p + lv;
    lemma_tabs(lv);
    assert(s.subrange(0, p) =~= pre);
    assert(s.subrange(p, j + kt.len()) =~= tabs(lv) + kt);
    assert(s.subrange(j, j + kt.len() + 3) =~= kt + mo);
    assert(s =~= pre + tabs(lv) + kt + mo + ein + (tabs(lv) + seq![0x7du8, 0x0au8] + after));
}

/// The step for an entry whose value is a map, given what reading its
/// entries and the rest gives.
#[verifier::rlimit(40)]
proof fn lemma_node_case(
    pre: Seq<u8>,
    lv: nat,
    key: Seq<u8>,
    inner: Seq<(Seq<u8>, Tree)>,
    rest: Seq<(Seq<u8>, Tree)>,
    more: Seq<u8>,
    first: bool,
    braced: bool,
)
    requires
        map_ctx_ok(pre, lv, more, first, braced),
        writable(key) && vstd::utf8::valid_utf8(key),
        ({
            let pre2 = pre + entry_text_at(lv, key, Tree::Node(inner));
            let s = pre2 + entries_text(lv, rest) + map_post(lv, more, braced);
            read_map(s, pre2.len() - 1, false, braced) == Some(
                (rest, map_end(pre2, lv, rest, more, braced)),
            )
        }),
        ({
            let pre_in = pre + tabs(lv) + key_text(key) + lit_map_open();
            let more_in = entries_text(lv, rest) + map_post(lv, more, braced);
            let s_in = pre_in + entries_text(lv + 1, inner) + map_post(lv + 1, more_in, true);
            read_map(s_in, pre_in.len() - 1, true, true) == Some(
                (inner, map_end(pre_in, lv + 1, inner, more_in, true)),
            )
        }),
    ensures
        ({
            let e0 = entry_text_at(lv, key, Tree::Node(inner));
            let s = pre + e0 + entries_text(lv, rest) + map_post(lv, more, braced);
            read_map(s, map_start(pre, first, braced), first, braced) == Some(
                (seq![(key, Tree::Node(inner))] + rest, map_end(pre + e0, lv, rest, more, braced)),
            )
        }),
{
    let ein = entries_text(lv + 1, inner);
    let e0 = node_text(lv, key, ein);
    let pre2 = pre + e0;
    let post = map_post(lv, more, braced);
    let more_in = entries_text(lv, rest) + post;
    let s = pre2 + entries_text(lv, rest) + post;
    assert(s == pre + e0 + more_in) by {
        assert(s =~= pre + e0 + more_in);
    }
    lemma_node_layout(pre, lv, key, ein, more_in);
    let k = map_start(pre, first, braced);
    let p = pre.len() as int;
    let kt = key_text(key);
    let j = p + lv;
    let pre_in = pre + tabs(lv) + kt + lit_map_open();
    lemma_first_key(s, pre, lv, key, k, first, braced);
    lemma_node_head(s, j, key);
    let e1 = j + kt.len();
    assert(map_post(lv + 1, more_in, true) == tabs(lv) + seq![0x7du8, 0x0au8] + more_in);
    let e_in = map_end(pre_in, lv + 1, inner, more_in, true);
    assert(pre2.len() - 1 == e_in) by {
        lemma_tabs(lv);
    }
    lemma_unfold_node(s, k, first, braced, j, e1, key, inner, e_in, rest, map_end(
        pre2,
        lv,
        rest,
        more,
        braced,
    ));
}

proof fn lemma_read_map(
    pre: Seq<u8>,
    lv: nat,
    es: Seq<(Seq<u8>, Tree)>,
    more: Seq<u8>,
    first: bool,
    braced: bool,
)
    requires
        tree_ok(es),
        map_ctx_ok(pre, lv, more, first, braced),
    ensures
        read_map(
            pre + entries_text(lv, es) + map_post(lv, more, braced),
            map_start(pre, first, braced),
            first,
            braced,
        ) == Some((es, map_end(pre, lv, es, more, braced))),
    decreases es,
{
    if es.len() == 0 {
        reveal_with_fuel(entries_text, 1);
        let s = pre + entries_text(lv, es) + map_post(lv, more, braced);
        assert(s =~= pre + map_post(lv, more, braced));
        lemma_read_map_empty(pre, lv, more, first, braced);
        lemma_unfold_end(s, map_start(pre, first, braced), first, braced, map_end(
            pre,
            lv,
            es,
            more,
            braced,
        ));
    } else {
        lemma_tree_split(es, lv);
        let key = es[0].0;
        let t = es[0].1;
        let rest = es.drop_first();
        let e0 = entry_text_at(lv, key, t);
        assert(pre + entries_text(lv, es) =~= pre + e0 + entries_text(lv, rest));
        assert(decreases_to!(es => rest));
        lemma_entry_ends_line(lv, key, t);
        assert((pre + e0).last() == 0x0a);
        lemma_read_map(pre + e0, lv, rest, more, false, braced);
        assert(map_end(pre, lv, es, more, braced) == map_end(pre + e0, lv, rest, more, braced));
        match t {
            Tree::Leaf(v) => {
                lemma_leaf_case(pre, lv, key, v, rest, more, first, braced);
            },
            Tree::Node(inner) => {
                assert(decreases_to!(es => es[0]));
                let pre_in = pre + tabs(lv) + key_text(key) + lit_map_open();
                let more_in = entries_text(lv, rest) + map_post(lv, more, braced);
                assert(pre_in.last() == 0x0a);
                lemma_read_map(pre_in, lv + 1, inner, more_in, true, true);
                lemma_node_case(pre, lv, key, inner, rest, more, first, braced);
            },
        }
    }
}

/// Nested maps of strings written by the encoder (one tab per level, inner
/// maps in braces) read back, through the decoder's requests, as the same
/// maps with their entries in order, consuming the whole text.
pub proof fn law_nested_round_trip(es: Seq<(Seq<u8>, Tree)>)
    requires
        tree_ok(es),
    ensures
        read_map(entries_text(0, es), 0, true, false) == Some(
            (es, entries_text(0, es).len() as int),
        ),
{
    reveal_with_fuel(entries_text, 1);
    lemma_read_map(seq![], 0, es, seq![], true, false);
    assert(Seq::<u8>::empty() + entries_text(0, es) + map_post(0, seq![], false) =~= entries_text(
        0,
        es,
    ));
}

} // verus!
