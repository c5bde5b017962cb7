//! Encoding a sprite table back into the brace/comma/colon/quote grammar
//! of a map literal. Re-decoding the encoded literal yields the same
//! mapping, independent of entry order; that round trip is the contract
//! of [`encode_sprites`].

use crate::actor::SpriteMap;
use crate::assoc::distinct_keys;
use crate::assoc::lemma_assoc_map_contains;
use crate::assoc::lemma_assoc_map_index;
use crate::model::closes_literal;
use crate::model::decode_entry;
use crate::model::decode_sprite_map;
use crate::model::insert_entries;
use crate::model::ErrorSpec;
use crate::text::keep_char;
use crate::text::lemma_find_char_at;
use crate::text::lemma_find_char_none;
use crate::text::split_commas;
use crate::text::starts_with;
use crate::text::str_eq;
use crate::text::strip_chars;
use crate::text::trim;
use vstd::prelude::*;
use vstd::string::StrSliceExecFns;
use vstd::string::StringExecFns;

verus! {

/// A character a sprite path may hold and still encode faithfully:
/// commas would split the entry, and spaces and braces are stripped
/// before decoding.
pub open spec fn value_char_ok(c: char) -> bool {
    keep_char(c) && c != ','
}

/// A character a sprite label may hold and still encode faithfully: a
/// colon would end the label early.
pub open spec fn key_char_ok(c: char) -> bool {
    value_char_ok(c) && c != ':'
}

/// A label made of encodable characters.
pub open spec fn key_ok(k: Seq<char>) -> bool {
    forall|i: int| 0 <= i < k.len() ==> key_char_ok(k[i])
}

/// A path made of encodable characters.
pub open spec fn value_ok(v: Seq<char>) -> bool {
    forall|i: int| 0 <= i < v.len() ==> value_char_ok(v[i])
}

/// A sprite mapping the grammar can express: it holds the mandatory
/// `init` label, and labels and paths keep clear of the grammar's own
/// characters.
pub open spec fn encodable(m: Map<Seq<char>, Seq<char>>) -> bool {
    &&& m.contains_key("init"@)
    &&& forall|k: Seq<char>| m.contains_key(k) ==> key_ok(k) && value_ok(#[trigger] m[k])
}

/// The token one entry encodes to: `label:"path"`.
spec fn enc_token(k: Seq<char>, v: Seq<char>) -> Seq<char> {
    k + seq![':', '"'] + v + seq!['"']
}

/// Tokens joined with commas.
spec fn join_commas(toks: Seq<Seq<char>>) -> Seq<char>
    decreases toks.len(),
{
    if toks.len() == 0 {
        Seq::empty()
    } else if toks.len() == 1 {
        toks[0]
    } else {
        toks[0] + seq![','] + join_commas(toks.subrange(1, toks.len() as int))
    }
}

/// Every character of the sequence survives stripping.
spec fn all_keep(s: Seq<char>) -> bool {
    forall|i: int| 0 <= i < s.len() ==> keep_char(s[i])
}

/// No character of the sequence is a comma.
spec fn no_comma(s: Seq<char>) -> bool {
    forall|i: int| 0 <= i < s.len() ==> s[i] != ','
}

/// Appending a token extends the joined text by a comma and the token.
proof fn lemma_join_push(toks: Seq<Seq<char>>, t: Seq<char>)
    requires
        toks.len() >= 1,
    ensures
        join_commas(toks.push(t)) == join_commas(toks) + seq![','] + t,
    decreases toks.len(),
{
    let toks2 = toks.push(t);
    if toks.len() == 1 {
        assert(toks2.subrange(1, 2) =~= seq![t]);
        assert(join_commas(seq![t]) == t);
        assert(join_commas(toks2) == toks2[0] + seq![','] + join_commas(toks2.subrange(1, 2)));
        assert(join_commas(toks2) =~= toks[0] + seq![','] + t);
        assert(join_commas(toks) + seq![','] + t =~= toks[0] + seq![','] + t);
    } else {
        let rest = toks.subrange(1, toks.len() as int);
        assert(toks2.subrange(1, toks2.len() as int) =~= rest.push(t));
        lemma_join_push(rest, t);
        assert(join_commas(toks2) =~= join_commas(toks) + seq![','] + t);
    }
}

/// Stripping keeps a sequence whose characters all survive it.
proof fn lemma_strip_all_kept(s: Seq<char>)
    requires
        all_keep(s),
    ensures
        strip_chars(s) == s,
    decreases s.len(),
{
    if s.len() > 0 {
        lemma_strip_all_kept(s.drop_last());
        assert(strip_chars(s) =~= s);
    }
}

/// Stripping distributes over concatenation.
proof fn lemma_strip_concat(a: Seq<char>, b: Seq<char>)
    ensures
        strip_chars(a + b) == strip_chars(a) + strip_chars(b),
    decreases b.len(),
{
    if b.len() == 0 {
        assert(a + b =~= a);
        assert(strip_chars(a) + strip_chars(b) =~= strip_chars(a));
    } else {
        assert((a + b).drop_last() =~= a + b.drop_last());
        assert((a + b).last() == b.last());
        lemma_strip_concat(a, b.drop_last());
        if keep_char(b.last()) {
            assert(strip_chars(a + b) =~= strip_chars(a) + strip_chars(b));
        } else {
            assert(strip_chars(a + b) =~= strip_chars(a) + strip_chars(b));
        }
    }
}

/// A joined token list whose tokens are comma-free splits back into the
/// tokens.
proof fn lemma_split_join(toks: Seq<Seq<char>>)
    requires
        toks.len() >= 1,
        forall|t: int| 0 <= t < toks.len() ==> no_comma(#[trigger] toks[t]),
    ensures
        split_commas(join_commas(toks)) == toks,
    decreases toks.len(),
{
    let jn = join_commas(toks);
    if toks.len() == 1 {
        assert(no_comma(toks[0]));
        lemma_find_char_none(jn, ',');
        assert(split_commas(jn) =~= toks);
    } else {
        let rest = toks.subrange(1, toks.len() as int);
        let rj = join_commas(rest);
        let n0 = toks[0].len() as int;
        assert(jn == toks[0] + seq![','] + rj);
        assert(jn[n0] == ',');
        assert forall|i: int| 0 <= i < n0 implies jn[i] != ',' by {
            assert(jn[i] == toks[0][i]);
            assert(no_comma(toks[0]));
        }
        lemma_find_char_at(jn, ',', n0);
        assert(jn.subrange(0, n0) =~= toks[0]);
        assert(jn.subrange(n0 + 1, jn.len() as int) =~= rj);
        assert forall|t: int| 0 <= t < rest.len() implies no_comma(#[trigger] rest[t]) by {
            assert(rest[t] == toks[t + 1]);
        }
        lemma_split_join(rest);
        assert(split_commas(jn) =~= seq![toks[0]] + rest);
        assert(seq![toks[0]] + rest =~= toks);
    }
}

/// An encoded entry is kept whole by stripping and holds no comma.
proof fn lemma_enc_token_chars(k: Seq<char>, v: Seq<char>)
    requires
        key_ok(k),
        value_ok(v),
    ensures
        all_keep(enc_token(k, v)),
        no_comma(enc_token(k, v)),
{
    let tok = enc_token(k, v);
    assert forall|i: int| 0 <= i < tok.len() implies keep_char(tok[i]) && tok[i] != ',' by {
        if i < k.len() {
            assert(tok[i] == k[i]);
        } else if i < k.len() + 2 {
            assert(tok[i] == seq![':', '"'][i - k.len()]);
        } else if i < k.len() + 2 + v.len() {
            assert(tok[i] == v[i - k.len() - 2]);
        } else {
            assert(tok[i] == '"');
        }
    }
}

/// An encoded entry decodes back to its label and path.
proof fn lemma_decode_entry_enc(k: Seq<char>, v: Seq<char>)
    requires
        key_ok(k),
        value_ok(v),
    ensures
        decode_entry(enc_token(k, v)) == Ok::<(Seq<char>, Seq<char>), ErrorSpec>((k, v)),
{
    let tok = enc_token(k, v);
    let n0 = k.len() as int;
    assert(tok[n0] == ':');
    assert forall|i: int| 0 <= i < n0 implies tok[i] != ':' by {
        assert(tok[i] == k[i]);
    }
    lemma_find_char_at(tok, ':', n0);
    let value = tok.subrange(n0 + 1, tok.len() as int);
    assert(value =~= seq!['"'] + v + seq!['"']);
    assert(tok.subrange(0, n0) =~= k);
    assert(value.subrange(1, value.len() - 1) =~= v);
}

/// A joined token list whose tokens survive stripping survives it whole:
/// commas do too.
proof fn lemma_join_all_keep(toks: Seq<Seq<char>>)
    requires
        forall|t: int| 0 <= t < toks.len() ==> all_keep(#[trigger] toks[t]),
    ensures
        all_keep(join_commas(toks)),
    decreases toks.len(),
{
    if toks.len() <= 1 {
    } else {
        let rest = toks.subrange(1, toks.len() as int);
        assert forall|t: int| 0 <= t < rest.len() implies all_keep(#[trigger] rest[t]) by {
            assert(rest[t] == toks[t + 1]);
        }
        lemma_join_all_keep(rest);
        let jn = join_commas(toks);
        let rj = join_commas(rest);
        assert forall|i: int| 0 <= i < jn.len() implies keep_char(jn[i]) by {
            let n0 = toks[0].len() as int;
            if i < n0 {
                assert(jn[i] == toks[0][i]);
                assert(all_keep(toks[0]));
            } else if i == n0 {
                assert(jn[i] == ',');
            } else {
                assert(jn[i] == rj[i - n0 - 1]);
            }
        }
    }
}

/// Where the pair at position `t` of the reordered list stood in the
/// stored list.
spec fn orig_of(t: int, idx: int) -> int {
    if t == 0 {
        idx
    } else if t <= idx {
        t - 1
    } else {
        t
    }
}

/// Where the pair at position `o` of the stored list stands in the
/// reordered list.
spec fn pos_of(o: int, idx: int) -> int {
    if o == idx {
        0
    } else if o < idx {
        o + 1
    } else {
        o
    }
}

/// Moving one pair to the front keeps the pairs, their count and the
/// distinctness of their keys; `orig_of` and `pos_of` relate the two
/// orders.
proof fn lemma_move_to_front(
    kvs: Seq<(Seq<char>, Seq<char>)>,
    idx: int,
    ps: Seq<(Seq<char>, Seq<char>)>,
)
    requires
        distinct_keys(kvs),
        0 <= idx < kvs.len(),
        ps == seq![kvs[idx]] + kvs.subrange(0, idx) + kvs.subrange(idx + 1, kvs.len() as int),
    ensures
        ps.len() == kvs.len(),
        distinct_keys(ps),
        forall|t: int|
            0 <= t < ps.len() ==> 0 <= orig_of(t, idx) < kvs.len() && #[trigger] ps[t] == kvs[
                orig_of(t, idx)],
        forall|o: int|
            0 <= o < kvs.len() ==> 0 <= pos_of(o, idx) < ps.len() && #[trigger] kvs[o] == ps[pos_of(
                o,
                idx,
            )],
{
    assert forall|t: int| 0 <= t < ps.len() implies 0 <= orig_of(t, idx) < kvs.len()
        && #[trigger] ps[t] == kvs[orig_of(t, idx)] by {
        if t == 0 {
        } else if t <= idx {
            assert(ps[t] == kvs.subrange(0, idx)[t - 1]);
        } else {
            assert(ps[t] == kvs.subrange(idx + 1, kvs.len() as int)[t - idx - 1]);
        }
    }
    assert forall|o: int| 0 <= o < kvs.len() implies 0 <= pos_of(o, idx) < ps.len()
        && #[trigger] kvs[o] == ps[pos_of(o, idx)] by {
        assert(orig_of(pos_of(o, idx), idx) == o);
    }
    assert forall|t1: int, t2: int| 0 <= t1 < t2 < ps.len() implies (#[trigger] ps[t1]).0 != (
    #[trigger] ps[t2]).0 by {
        let o1 = orig_of(t1, idx);
        let o2 = orig_of(t2, idx);
        assert(o1 != o2);
        if o1 < o2 {
            assert(kvs[o1].0 != kvs[o2].0);
        } else {
            assert(kvs[o2].0 != kvs[o1].0);
        }
    }
}

/// Inserting a token list in which every token decodes: the result holds
/// exactly the prior keys and the decoded keys, the last decoded value
/// for a key wins, and prior values under other keys survive.
proof fn lemma_insert_entries_ok(
    m: Map<Seq<char>, Seq<char>>,
    toks: Seq<Seq<char>>,
    ps: Seq<(Seq<char>, Seq<char>)>,
)
    requires
        toks.len() == ps.len(),
        forall|t: int|
            0 <= t < toks.len() ==> decode_entry(#[trigger] toks[t]) == Ok::<
                (Seq<char>, Seq<char>),
                ErrorSpec,
            >((ps[t].0, ps[t].1)),
    ensures
        insert_entries(m, toks) is Ok,
        forall|k: Seq<char>|
            (insert_entries(m, toks)->Ok_0).contains_key(k) <==> (m.contains_key(k) || exists|t: int|
                0 <= t < ps.len() && (#[trigger] ps[t]).0 == k),
        forall|t: int|
            (0 <= t < ps.len() && (forall|u: int| t < u < ps.len() ==> ps[u].0 != ps[t].0))
                ==> (insert_entries(m, toks)->Ok_0)[(#[trigger] ps[t]).0] == ps[t].1,
        forall|k: Seq<char>|
            (m.contains_key(k) && (forall|t: int| 0 <= t < ps.len() ==> (#[trigger] ps[t]).0 != k))
                ==> (insert_entries(m, toks)->Ok_0)[k] == m[k],
    decreases toks.len(),
{
    if toks.len() == 0 {
    } else {
        let m1 = m.insert(ps[0].0, ps[0].1);
        let toks1 = toks.subrange(1, toks.len() as int);
        let ps1 = ps.subrange(1, ps.len() as int);
        assert forall|t: int| 0 <= t < toks1.len() implies decode_entry(#[trigger] toks1[t]) == Ok::<
            (Seq<char>, Seq<char>),
            ErrorSpec,
        >((ps1[t].0, ps1[t].1)) by {
            assert(toks1[t] == toks[t + 1]);
            assert(ps1[t] == ps[t + 1]);
        }
        lemma_insert_entries_ok(m1, toks1, ps1);
        let r = insert_entries(m, toks)->Ok_0;
        assert(insert_entries(m, toks) == insert_entries(m1, toks1));
        assert forall|k: Seq<char>| r.contains_key(k) implies (m.contains_key(k) || exists|t: int|
            0 <= t < ps.len() && (#[trigger] ps[t]).0 == k) by {
            if m1.contains_key(k) && !m.contains_key(k) && k != ps[0].0 {
                assert(false);
            }
            if !m1.contains_key(k) {
                let t = choose|t: int| 0 <= t < ps1.len() && (#[trigger] ps1[t]).0 == k;
                assert(ps[t + 1].0 == k);
            } else if k == ps[0].0 {
                assert(ps[0].0 == k);
            }
        }
        assert forall|k: Seq<char>| (m.contains_key(k) || exists|t: int|
            0 <= t < ps.len() && (#[trigger] ps[t]).0 == k) implies r.contains_key(k) by {
            if m.contains_key(k) {
                assert(m1.contains_key(k));
            } else {
                let t = choose|t: int| 0 <= t < ps.len() && (#[trigger] ps[t]).0 == k;
                if t == 0 {
                    assert(m1.contains_key(k));
                } else {
                    assert(ps1[t - 1].0 == k);
                }
            }
        }
        assert forall|t: int|
            (0 <= t < ps.len() && (forall|u: int| t < u < ps.len() ==> ps[u].0 != ps[t].0)) implies r[(
        #[trigger] ps[t]).0] == ps[t].1 by {
            if t == 0 {
                assert forall|u: int| 0 <= u < ps1.len() implies (#[trigger] ps1[u]).0
                    != ps[0].0 by {
                    assert(ps1[u] == ps[u + 1]);
                }
                assert(m1.contains_key(ps[0].0));
                assert(r[ps[0].0] == m1[ps[0].0]);
            } else {
                assert(ps1[t - 1] == ps[t]);
                assert forall|u: int| t - 1 < u < ps1.len() implies (#[trigger] ps1[u]).0 != ps1[t
                    - 1].0 by {
                    assert(ps1[u] == ps[u + 1]);
                }
                assert(r[ps1[t - 1].0] == ps1[t - 1].1);
            }
        }
        assert forall|k: Seq<char>|
            (m.contains_key(k) && (forall|t: int| 0 <= t < ps.len() ==> (#[trigger] ps[t]).0 != k))
            implies r[k] == m[k] by {
            assert(ps[0].0 != k);
            assert(m1.contains_key(k) && m1[k] == m[k]);
            assert forall|t: int| 0 <= t < ps1.len() implies (#[trigger] ps1[t]).0 != k by {
                assert(ps1[t] == ps[t + 1]);
            }
        }
    }
}

/// Each token of the moved-to-front pair list survives stripping, holds
/// no comma, and decodes back to its pair.
proof fn lemma_tokens_chars(
    kvs: Seq<(Seq<char>, Seq<char>)>,
    m: Map<Seq<char>, Seq<char>>,
    toks: Seq<Seq<char>>,
    ps: Seq<(Seq<char>, Seq<char>)>,
    init_idx: int,
)
    requires
        distinct_keys(kvs),
        m == crate::assoc::assoc_map(kvs),
        encodable(m),
        toks.len() == ps.len(),
        forall|t: int| 0 <= t < toks.len() ==> #[trigger] toks[t] == enc_token(ps[t].0, ps[t].1),
        forall|t: int|
            0 <= t < ps.len() ==> 0 <= orig_of(t, init_idx) < kvs.len() && #[trigger] ps[t] == kvs[
                orig_of(t, init_idx)],
    ensures
        forall|t: int| 0 <= t < toks.len() ==> all_keep(#[trigger] toks[t]) && no_comma(toks[t]),
        forall|t: int|
            0 <= t < toks.len() ==> decode_entry(#[trigger] toks[t]) == Ok::<
                (Seq<char>, Seq<char>),
                ErrorSpec,
            >((ps[t].0, ps[t].1)),
{
    assert forall|t: int| 0 <= t < ps.len() implies key_ok((#[trigger] ps[t]).0) && value_ok(
        ps[t].1,
    ) by {
        let o = orig_of(t, init_idx);
        assert(ps[t] == kvs[o]);
        lemma_assoc_map_index(kvs, o);
        assert(m.contains_key(kvs[o].0));
        assert(m[kvs[o].0] == kvs[o].1);
    }
    assert forall|t: int| 0 <= t < toks.len() implies all_keep(#[trigger] toks[t]) && no_comma(
        toks[t],
    ) by {
        lemma_enc_token_chars(ps[t].0, ps[t].1);
    }
    assert forall|t: int| 0 <= t < toks.len() implies decode_entry(#[trigger] toks[t]) == Ok::<
        (Seq<char>, Seq<char>),
        ErrorSpec,
    >((ps[t].0, ps[t].1)) by {
        lemma_decode_entry_enc(ps[t].0, ps[t].1);
    }
}

/// A brace-wrapped, comma-joined token text trims to itself, strips to
/// the joined tokens and splits back into them.
proof fn lemma_literal_splits(toks: Seq<Seq<char>>, rv: Seq<char>)
    requires
        toks.len() >= 1,
        forall|t: int| 0 <= t < toks.len() ==> all_keep(#[trigger] toks[t]) && no_comma(toks[t]),
        rv == (seq!['{'] + join_commas(toks)) + seq!['}'],
    ensures
        split_commas(strip_chars(trim(rv))) == toks,
{
    let jn = join_commas(toks);
    lemma_join_all_keep(toks);
    assert(rv[0] == '{');
    assert(rv.last() == '}');
    assert(trim(rv) == rv);
    lemma_strip_concat(seq!['{'] + jn, seq!['}']);
    lemma_strip_concat(seq!['{'], jn);
    lemma_strip_all_kept(jn);
    assert(seq!['{'].drop_last() =~= Seq::<char>::empty());
    assert(seq!['}'].drop_last() =~= Seq::<char>::empty());
    assert(strip_chars(Seq::<char>::empty()) =~= Seq::<char>::empty());
    assert(strip_chars(seq!['{']) =~= Seq::<char>::empty());
    assert(strip_chars(seq!['}']) =~= Seq::<char>::empty());
    assert(strip_chars(trim(rv)) =~= jn);
    lemma_split_join(toks);
}

/// Decoding the tokens of the moved-to-front pair list into an empty
/// mapping rebuilds exactly the table's mapping.
#[verifier::rlimit(50)]
proof fn lemma_tokens_map(
    kvs: Seq<(Seq<char>, Seq<char>)>,
    m: Map<Seq<char>, Seq<char>>,
    toks: Seq<Seq<char>>,
    ps: Seq<(Seq<char>, Seq<char>)>,
    init_idx: int,
)
    requires
        distinct_keys(kvs),
        m == crate::assoc::assoc_map(kvs),
        0 <= init_idx < kvs.len(),
        toks.len() == ps.len(),
        ps == seq![kvs[init_idx]] + kvs.subrange(0, init_idx) + kvs.subrange(
            init_idx + 1,
            kvs.len() as int,
        ),
        forall|t: int|
            0 <= t < toks.len() ==> decode_entry(#[trigger] toks[t]) == Ok::<
                (Seq<char>, Seq<char>),
                ErrorSpec,
            >((ps[t].0, ps[t].1)),
    ensures
        insert_entries(Map::<Seq<char>, Seq<char>>::empty(), toks) == Ok::<
            Map<Seq<char>, Seq<char>>,
            ErrorSpec,
        >(m),
{
    lemma_move_to_front(kvs, init_idx, ps);
    lemma_insert_entries_ok(Map::<Seq<char>, Seq<char>>::empty(), toks, ps);
    let rm = insert_entries(Map::<Seq<char>, Seq<char>>::empty(), toks)->Ok_0;
    assert forall|k: Seq<char>| #[trigger] rm.contains_key(k) implies m.contains_key(k) && rm[k]
        == m[k] by {
        assert(!Map::<Seq<char>, Seq<char>>::empty().contains_key(k));
        let t = choose|t: int| 0 <= t < ps.len() && (#[trigger] ps[t]).0 == k;
        let o = orig_of(t, init_idx);
        assert(ps[t] == kvs[o]);
        lemma_assoc_map_index(kvs, o);
        assert forall|u: int| t < u < ps.len() implies (#[trigger] ps[u]).0 != ps[t].0 by {
            assert(distinct_keys(ps));
        }
        assert(rm[ps[t].0] == ps[t].1);
    }
    assert forall|k: Seq<char>| #[trigger] m.contains_key(k) implies rm.contains_key(k) by {
        assert(!Map::<Seq<char>, Seq<char>>::empty().contains_key(k));
        lemma_assoc_map_contains(kvs, k);
        assert(exists|i: int| 0 <= i < kvs.len() && (#[trigger] kvs[i]).0 == k);
        let o = choose|i: int| 0 <= i < kvs.len() && (#[trigger] kvs[i]).0 == k;
        assert(0 <= o < kvs.len() && kvs[o].0 == k);
        let t = pos_of(o, init_idx);
        assert(kvs[o] == ps[t]);
        assert(0 <= t < ps.len());
        assert(ps[t].0 == k);
        assert(exists|u: int| 0 <= u < ps.len() && (#[trigger] ps[u]).0 == k);
    }
    assert forall|k: Seq<char>| rm.dom().contains(k) <==> m.dom().contains(k) by {
        assert(rm.dom().contains(k) == rm.contains_key(k));
        assert(m.dom().contains(k) == m.contains_key(k));
    }
    assert(rm.dom() =~= m.dom());
    assert forall|k: Seq<char>| #[trigger] rm.dom().contains(k) implies rm[k] == m[k] by {
        assert(rm.contains_key(k));
    }
    assert(rm =~= m);
}

/// The crux of the round trip: a literal built from the moved-to-front
/// pair list of a table decodes back to the table's mapping.
proof fn lemma_encoded_decodes(
    kvs: Seq<(Seq<char>, Seq<char>)>,
    m: Map<Seq<char>, Seq<char>>,
    toks: Seq<Seq<char>>,
    ps: Seq<(Seq<char>, Seq<char>)>,
    rv: Seq<char>,
    init_idx: int,
)
    requires
        distinct_keys(kvs),
        m == crate::assoc::assoc_map(kvs),
        encodable(m),
        0 <= init_idx < kvs.len(),
        kvs[init_idx].0 == "init"@,
        toks.len() == ps.len(),
        ps.len() >= 1,
        forall|t: int| 0 <= t < toks.len() ==> #[trigger] toks[t] == enc_token(ps[t].0, ps[t].1),
        ps == seq![kvs[init_idx]] + kvs.subrange(0, init_idx) + kvs.subrange(
            init_idx + 1,
            kvs.len() as int,
        ),
        rv == (seq!['{'] + join_commas(toks)) + seq!['}'],
    ensures
        decode_sprite_map(rv, Map::<Seq<char>, Seq<char>>::empty()) == Ok::<
            Map<Seq<char>, Seq<char>>,
            ErrorSpec,
        >(m),
        closes_literal(rv),
{
    reveal_strlit("init");
    reveal_strlit("init:");
    lemma_move_to_front(kvs, init_idx, ps);
    lemma_tokens_chars(kvs, m, toks, ps, init_idx);
    lemma_literal_splits(toks, rv);
    assert(rv[0] == '{');
    assert(rv.last() == '}');
    assert(trim(rv) == rv);
    assert(closes_literal(rv));
    assert(ps[0] == kvs[init_idx]);
    assert(ps[0].0 == "init"@);
    assert(toks[0] == enc_token("init"@, ps[0].1));
    assert(toks[0].len() >= 5);
    assert(toks[0].subrange(0, 5) =~= "init:"@);
    assert(starts_with(toks[0], "init:"@));
    lemma_tokens_map(kvs, m, toks, ps, init_idx);
}

/// Append one encoded entry, `label:"path"`, to the text being built.
fn push_token(out: &mut String, key: &str, value: &str)
    ensures
        final(out)@ == old(out)@ + enc_token(key@, value@),
{
    out.append(key);
    out.append(":");
    out.append("\"");
    out.append(value);
    out.append("\"");
    proof {
        reveal_strlit(":");
        reveal_strlit("\"");
        assert(":"@ =~= seq![':']);
        assert("\""@ =~= seq!['"']);
        assert(out@ =~= old(out)@ + enc_token(key@, value@));
    }
}

/// Encode a sprite table as one brace-delimited map literal, the `init`
/// entry first. Decoding the literal yields the table's mapping back:
/// the round trip is exact, whatever order the entries are stored in.
/// The output closes its own literal, so a single `sprites=` assignment
/// line carrying it re-parses in one step
/// ([`crate::laws::lemma_round_trip_parse`]).
#[verifier::loop_isolation(false)]
pub fn encode_sprites(sprites: &SpriteMap) -> (r: String)
    requires
        sprites.wf(),
        encodable(sprites@),
    ensures
        decode_sprite_map(r@, Map::<Seq<char>, Seq<char>>::empty()) == Ok::<
            Map<Seq<char>, Seq<char>>,
            ErrorSpec,
        >(sprites@),
        closes_literal(r@),
{
    let ghost kvs = sprites.kvs();
    let ghost m = sprites@;
    proof {
        sprites.lemma_repr();
        lemma_assoc_map_contains(kvs, "init"@);
    }
    let n = sprites.entries.len();
    let mut init_idx: usize = 0;
    let mut found = false;
    let mut i: usize = 0;
    while i < n
        invariant
            i <= n,
            found ==> init_idx < n && kvs[init_idx as int].0 == "init"@,
            !found ==> forall|j: int| 0 <= j < i ==> kvs[j].0 != "init"@,
        decreases n - i,
    {
        proof {
            assert(kvs[i as int].0 == sprites.entries@[i as int].0@);
        }
        if !found && str_eq(sprites.entries[i].0.as_str(), "init") {
            init_idx = i;
            found = true;
        }
        i += 1;
    }
    proof {
        if !found {
            let o = choose|o: int| 0 <= o < kvs.len() && kvs[o].0 == "init"@;
            assert(false);
        }
    }
    let mut middle = String::new();
    let ghost mut toks: Seq<Seq<char>> = seq![];
    let ghost mut ps: Seq<(Seq<char>, Seq<char>)> = seq![];
    proof {
        assert(kvs[init_idx as int] == (
            sprites.entries@[init_idx as int].0@,
            sprites.entries@[init_idx as int].1@,
        ));
    }
    push_token(
        &mut middle,
        sprites.entries[init_idx].0.as_str(),
        sprites.entries[init_idx].1.as_str(),
    );
    proof {
        toks = seq![enc_token(kvs[init_idx as int].0, kvs[init_idx as int].1)];
        ps = seq![kvs[init_idx as int]];
        assert(join_commas(toks) == toks[0]);
        assert(middle@ =~= join_commas(toks));
        assert(ps =~= seq![kvs[init_idx as int]] + kvs.subrange(0, 0));
    }
    let mut i: usize = 0;
    while i < n
        invariant
            i <= n,
            toks.len() == ps.len(),
            ps.len() >= 1,
            middle@ == join_commas(toks),
            forall|t: int|
                0 <= t < toks.len() ==> #[trigger] toks[t] == enc_token(ps[t].0, ps[t].1),
            i <= init_idx ==> ps == seq![kvs[init_idx as int]] + kvs.subrange(0, i as int),
            i > init_idx ==> ps == seq![kvs[init_idx as int]] + kvs.subrange(0, init_idx as int)
                + kvs.subrange(init_idx as int + 1, i as int),
        decreases n - i,
    {
        if i != init_idx {
            proof {
                assert(kvs[i as int] == (
                    sprites.entries@[i as int].0@,
                    sprites.entries@[i as int].1@,
                ));
            }
            middle.append(",");
            let ghost mid_before = middle@;
            push_token(&mut middle, sprites.entries[i].0.as_str(), sprites.entries[i].1.as_str());
            proof {
                reveal_strlit(",");
                assert(","@ =~= seq![',']);
                let tok = enc_token(kvs[i as int].0, kvs[i as int].1);
                lemma_join_push(toks, tok);
                toks = toks.push(tok);
                ps = ps.push(kvs[i as int]);
                assert(middle@ =~= join_commas(toks));
                if i < init_idx {
                    assert(ps =~= seq![kvs[init_idx as int]] + kvs.subrange(0, i + 1));
                } else {
                    assert(ps =~= seq![kvs[init_idx as int]] + kvs.subrange(0, init_idx as int)
                        + kvs.subrange(init_idx as int + 1, i + 1));
                }
            }
        } else {
            proof {
                assert(ps =~= seq![kvs[init_idx as int]] + kvs.subrange(0, init_idx as int)
                    + kvs.subrange(init_idx as int + 1, init_idx as int + 1));
            }
        }
        i += 1;
    }
    let mut r = String::from_str("{");
    r.append(middle.as_str());
    r.append("}");
    proof {
        reveal_strlit("{");
        reveal_strlit("}");
        assert("{"@ =~= seq!['{']);
        assert("}"@ =~= seq!['}']);
        assert(r@ =~= (seq!['{'] + join_commas(toks)) + seq!['}']);
        lemma_encoded_decodes(kvs, m, toks, ps, r@, init_idx as int);
    }
    r
}

} // verus!
