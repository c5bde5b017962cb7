//! Properties of the declaration parser, proved once and for all over the
//! state machine of [`crate::model`].

use crate::model::closes_literal;
use crate::model::decode_sprite_map;
use crate::model::default_actor;
use crate::model::init_state;
use crate::model::run;
use crate::model::spec_parse_decls;
use crate::model::state_wf;
use crate::model::step;
use crate::model::lemma_run_err;
use crate::model::lemma_run_wf;
use crate::model::ActorSpec;
use crate::model::ErrorSpec;
use crate::model::StateSpec;
use crate::text::find_char;
use crate::text::lemma_find_char_at;
use crate::text::lemma_find_char_none;
use crate::text::split_commas;
use crate::text::starts_with;
use crate::text::strip_chars;
use crate::text::trim;
use vstd::prelude::*;

verus! {

/// Whether `line` is the header line that declares `id`.
pub open spec fn is_header_for(line: Seq<char>, id: Seq<char>) -> bool {
    &&& line.len() >= 2
    &&& line[0] == '['
    &&& line.last() == ']'
    &&& line.subrange(1, line.len() - 1) == id
}

/// A successful step never drops an id from the pool.
proof fn lemma_step_pool_monotone(st: StateSpec, line: Seq<char>)
    requires
        step(st, line) is Ok,
    ensures
        forall|k: Seq<char>|
            st.pool.contains_key(k) ==> (step(st, line)->Ok_0).pool.contains_key(k),
{
}

/// If a run reaches line `m`, it reached every earlier line.
proof fn lemma_run_ok_prefix(lines: Seq<Seq<char>>, n: int, m: int)
    requires
        0 <= n <= m,
        run(lines, m) is Ok,
    ensures
        run(lines, n) is Ok,
{
    if run(lines, n) is Err {
        lemma_run_err(lines, n, m);
    }
}

/// The pool only grows as the run advances.
proof fn lemma_pool_monotone(lines: Seq<Seq<char>>, n: int, m: int)
    requires
        0 <= n <= m,
        run(lines, m) is Ok,
    ensures
        run(lines, n) is Ok,
        forall|k: Seq<char>|
            (run(lines, n)->Ok_0).pool.contains_key(k) ==> (run(
                lines,
                m,
            )->Ok_0).pool.contains_key(k),
    decreases m - n,
{
    lemma_run_ok_prefix(lines, n, m);
    if m > n {
        lemma_pool_monotone(lines, n, m - 1);
        lemma_step_pool_monotone(run(lines, m - 1)->Ok_0, lines[m - 1]);
    }
}

/// No duplicate passes silently: when two distinct lines are both
/// consumed at top level as header lines of the same actor id, the parse
/// of the whole input fails.
pub proof fn lemma_no_duplicate_headers(lines: Seq<Seq<char>>, id: Seq<char>, i: int, j: int)
    requires
        0 <= i < j < lines.len(),
        run(lines, i) matches Ok(sti) && sti.buf is None,
        run(lines, j) matches Ok(stj) && stj.buf is None,
        is_header_for(lines[i], id),
        is_header_for(lines[j], id),
    ensures
        spec_parse_decls(lines) is Err,
{
    let sti = run(lines, i)->Ok_0;
    let stj = run(lines, j)->Ok_0;
    if run(lines, i + 1) is Err {
        lemma_run_err(lines, i + 1, j);
        assert(false);
    }
    assert(run(lines, i + 1) == step(sti, lines[i]));
    if sti.pool.contains_key(id) {
        assert(step(sti, lines[i]) == Err::<StateSpec, _>(ErrorSpec::DuplicateActor(id)));
        assert(false);
    }
    assert((run(lines, i + 1)->Ok_0).pool.contains_key(id));
    lemma_pool_monotone(lines, i + 1, j);
    assert(stj.pool.contains_key(id));
    assert(step(stj, lines[j]) == Err::<StateSpec, _>(ErrorSpec::DuplicateActor(id)));
    assert(run(lines, j + 1) is Err);
    lemma_run_err(lines, j + 1, lines.len() as int);
}

/// Every actor id of a successful parse was declared: some line of the
/// input, consumed at top level, is its header line. Together with
/// [`lemma_no_duplicate_headers`], each id in the output has exactly one
/// header line consumed at top level.
pub proof fn lemma_pool_id_has_header(lines: Seq<Seq<char>>, n: int, id: Seq<char>)
    requires
        0 <= n <= lines.len(),
        run(lines, n) matches Ok(st) && st.pool.contains_key(id),
    ensures
        exists|k: int|
            0 <= k < n && run(lines, k) is Ok && (run(lines, k)->Ok_0).buf is None
                && is_header_for(lines[k], id),
    decreases n,
{
    let st = run(lines, n)->Ok_0;
    if n <= 0 {
        assert(false);
    } else {
        lemma_run_ok_prefix(lines, n - 1, n);
        let prev = run(lines, n - 1)->Ok_0;
        lemma_run_wf(lines, n - 1);
        assert(state_wf(prev));
        if prev.pool.contains_key(id) {
            lemma_pool_id_has_header(lines, n - 1, id);
            let k = choose|k: int|
                0 <= k < n - 1 && run(lines, k) is Ok && (run(lines, k)->Ok_0).buf is None
                    && is_header_for(lines[k], id);
            assert(0 <= k < n && run(lines, k) is Ok && (run(lines, k)->Ok_0).buf is None
                && is_header_for(lines[k], id));
        } else {
            let line = lines[n - 1];
            assert(prev.buf is None && is_header_for(line, id));
        }
    }
}

/// Parsing is deterministic: two parses of the same declarations
/// sequence that both succeed yield structurally equal pools.
pub proof fn lemma_parse_idempotent(
    lines: Seq<Seq<char>>,
    m1: Map<Seq<char>, ActorSpec>,
    m2: Map<Seq<char>, ActorSpec>,
)
    requires
        spec_parse_decls(lines) == Ok::<_, ErrorSpec>(m1),
        spec_parse_decls(lines) == Ok::<_, ErrorSpec>(m2),
    ensures
        m1 == m2,
{
}

/// A map literal whose first entry does not open with `init:` fails with
/// `MissingInitKey`; it never decodes silently.
pub proof fn lemma_missing_init_key(buf: Seq<char>, m0: Map<Seq<char>, Seq<char>>)
    requires
        !starts_with(split_commas(strip_chars(trim(buf)))[0], "init:"@),
    ensures
        decode_sprite_map(buf, m0) == Err::<Map<Seq<char>, Seq<char>>, _>(
            ErrorSpec::MissingInitKey,
        ),
{
}

/// Re-parsing an encoded sprite table: at top level with a current
/// actor, a `sprites=` assignment whose value closes its literal and
/// decodes to the mapping `m` — as the output of
/// [`crate::encode::encode_sprites`] does by its contract — replaces the
/// current actor's sprites by `m` in one step.
pub proof fn lemma_sprites_assignment_step(
    st: StateSpec,
    line: Seq<char>,
    enc: Seq<char>,
    m: Map<Seq<char>, Seq<char>>,
)
    requires
        st.buf is None,
        st.cur matches Some(id) && st.pool.contains_key(id),
        line == "sprites="@ + enc,
        closes_literal(enc),
        decode_sprite_map(enc, st.pool[st.cur->Some_0].sprites) == Ok::<
            Map<Seq<char>, Seq<char>>,
            ErrorSpec,
        >(m),
    ensures
        step(st, line) == Ok::<StateSpec, ErrorSpec>(
            StateSpec {
                pool: st.pool.insert(
                    st.cur->Some_0,
                    ActorSpec { name: st.pool[st.cur->Some_0].name, sprites: m },
                ),
                cur: st.cur,
                buf: None,
            },
        ),
{
    reveal_strlit("sprites=");
    reveal_strlit("sprites");
    reveal_strlit("name");
    assert(line.len() == 8 + enc.len());
    assert(line[0] == 's');
    assert forall|j: int| 0 <= j < 7 implies line[j] != '=' by {
        assert(line[j] == "sprites="@[j]);
    }
    assert(line[7] == '=');
    lemma_find_char_at(line, '=', 7);
    assert(line.subrange(0, 7) =~= "sprites"@);
    assert(trim("sprites"@) == "sprites"@);
    assert forall|j: int| 0 <= j < "sprites"@.len() implies "sprites"@[j] != ' ' by {}
    lemma_find_char_none("sprites"@, ' ');
    assert("sprites"@ != "name"@);
    assert(line.subrange(8, line.len() as int) =~= enc);
}

/// Re-parsing an encoded sprite table through a whole parse: a header
/// line followed by a `sprites=` assignment whose value closes its
/// literal and decodes to `m` yields the pool of that one actor, blank
/// name, carrying exactly `m`.
pub proof fn lemma_round_trip_parse(header: Seq<char>, id: Seq<char>, enc: Seq<char>, m: Map<
    Seq<char>,
    Seq<char>,
>)
    requires
        is_header_for(header, id),
        closes_literal(enc),
        decode_sprite_map(enc, Map::<Seq<char>, Seq<char>>::empty()) == Ok::<
            Map<Seq<char>, Seq<char>>,
            ErrorSpec,
        >(m),
    ensures
        spec_parse_decls(seq![header, "sprites="@ + enc]) == Ok::<
            Map<Seq<char>, ActorSpec>,
            ErrorSpec,
        >(
            Map::<Seq<char>, ActorSpec>::empty().insert(
                id,
                ActorSpec { name: Seq::empty(), sprites: m },
            ),
        ),
{
    let lines = seq![header, "sprites="@ + enc];
    let st1 = StateSpec {
        pool: Map::<Seq<char>, ActorSpec>::empty().insert(id, default_actor()),
        cur: Some(id),
        buf: None,
    };
    assert(run(lines, 0) == Ok::<StateSpec, ErrorSpec>(init_state()));
    assert(!Map::<Seq<char>, ActorSpec>::empty().contains_key(id));
    assert(step(init_state(), lines[0]) == Ok::<StateSpec, ErrorSpec>(st1));
    assert(run(lines, 1) == Ok::<StateSpec, ErrorSpec>(st1));
    assert(st1.pool[id] == default_actor());
    lemma_sprites_assignment_step(st1, lines[1], enc, m);
    let st2 = StateSpec {
        pool: st1.pool.insert(id, ActorSpec { name: Seq::empty(), sprites: m }),
        cur: Some(id),
        buf: None,
    };
    assert(run(lines, 2) == Ok::<StateSpec, ErrorSpec>(st2));
    assert(st2.pool =~= Map::<Seq<char>, ActorSpec>::empty().insert(
        id,
        ActorSpec { name: Seq::empty(), sprites: m },
    ));
}

/// A property line whose name holds a space character fails with
/// `InvalidPropertyName`, whatever the state of the pool.
pub proof fn lemma_invalid_property_name(st: StateSpec, line: Seq<char>)
    requires
        st.buf is None,
        line.len() > 0 ==> line[0] != '[',
        find_char(line, '=') is Some,
        find_char(trim(line.subrange(0, find_char(line, '=')->Some_0)), ' ') is Some,
    ensures
        step(st, line) == Err::<StateSpec, _>(
            ErrorSpec::InvalidPropertyName(trim(line.subrange(0, find_char(line, '=')->Some_0))),
        ),
{
}

} // verus!
