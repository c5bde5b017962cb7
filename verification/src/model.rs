//! The mathematical model of the declaration parser: what an actor record
//! denotes, the typed parse errors, and a small state machine that maps a
//! sequence of declaration lines to an actor table or to the first error.
//! The executable parser is proved to return exactly what [`spec_parse_decls`]
//! prescribes.

use crate::text::find_char;
use crate::text::split_commas;
use crate::text::starts_with;
use crate::text::strip_chars;
use crate::text::trim;
use vstd::prelude::*;

verus! {

/// What an actor record denotes: a scalar name and a sprite table from
/// label to image path.
pub ghost struct ActorSpec {
    pub name: Seq<char>,
    pub sprites: Map<Seq<char>, Seq<char>>,
}

/// A freshly declared actor: empty name, no sprites.
pub open spec fn default_actor() -> ActorSpec {
    ActorSpec { name: Seq::empty(), sprites: Map::empty() }
}

/// The parse errors, each carrying the offending text where there is one.
pub ghost enum ErrorSpec {
    /// A line opening with `[` that does not close with `]`.
    MalformedHeader,
    /// A header for an actor id that the pool already holds.
    DuplicateActor(Seq<char>),
    /// A property line without an `=` separator.
    MissingAssignment,
    /// A property name holding a space character.
    InvalidPropertyName(Seq<char>),
    /// A property name other than `name` or `sprites`.
    UnknownProperty(Seq<char>),
    /// A map literal whose first entry is not `init:...`.
    MissingInitKey,
    /// A map entry without a colon, or whose value is too short to carry
    /// a surrounding quote pair.
    MalformedMapEntry(Seq<char>),
    /// A property line before any header line.
    NoCurrentActor,
}

/// The parser's state between lines: the pool built so far, the id of the
/// actor that property lines currently target, and the text of an
/// in-progress map literal (`Some` exactly while accumulating one).
pub ghost struct StateSpec {
    pub pool: Map<Seq<char>, ActorSpec>,
    pub cur: Option<Seq<char>>,
    pub buf: Option<Seq<char>>,
}

/// The state a parse starts from: empty pool, no current actor, no
/// literal in progress.
pub open spec fn init_state() -> StateSpec {
    StateSpec { pool: Map::empty(), cur: None, buf: None }
}

/// One key-value token of a cleaned map literal, decoded: the text before
/// the first colon is the key; the text after it, stripped of one
/// character at each end (its surrounding quote pair), is the value.
pub open spec fn decode_entry(tok: Seq<char>) -> Result<(Seq<char>, Seq<char>), ErrorSpec> {
    match find_char(tok, ':') {
        None => Err(ErrorSpec::MalformedMapEntry(tok)),
        Some(ci) => {
            let value = tok.subrange(ci + 1, tok.len() as int);
            if value.len() < 2 {
                Err(ErrorSpec::MalformedMapEntry(tok))
            } else {
                Ok((tok.subrange(0, ci), value.subrange(1, value.len() - 1)))
            }
        },
    }
}

/// The tokens of a map literal decoded and inserted left to right into
/// `m`; a repeated key silently overwrites the earlier value.
pub open spec fn insert_entries(m: Map<Seq<char>, Seq<char>>, toks: Seq<Seq<char>>) -> Result<
    Map<Seq<char>, Seq<char>>,
    ErrorSpec,
>
    decreases toks.len(),
{
    if toks.len() == 0 {
        Ok(m)
    } else {
        match decode_entry(toks[0]) {
            Err(e) => Err(e),
            Ok(kv) => insert_entries(m.insert(kv.0, kv.1), toks.subrange(1, toks.len() as int)),
        }
    }
}

/// Whether a piece of text completes a map literal: its trimmed form
/// ends with the closing brace. A line holding `}` alone is the plainest
/// case; a literal may also close on the same line it was opened on.
pub open spec fn closes_literal(s: Seq<char>) -> bool {
    trim(s).len() > 0 && trim(s).last() == '}'
}

/// A finished map literal decoded into sprite entries added to `m0`: the
/// accumulated text is trimmed, cleared of spaces and braces, and split
/// on commas; the first token must open with `init:`.
pub open spec fn decode_sprite_map(buf: Seq<char>, m0: Map<Seq<char>, Seq<char>>) -> Result<
    Map<Seq<char>, Seq<char>>,
    ErrorSpec,
> {
    let toks = split_commas(strip_chars(trim(buf)));
    if !starts_with(toks[0], "init:"@) {
        Err(ErrorSpec::MissingInitKey)
    } else {
        insert_entries(m0, toks)
    }
}

/// One line consumed. While a map literal is in progress every line is
/// appended to it, and a line whose trimmed text ends with `}` closes
/// and decodes it. At top level, a line opening with `[` is a header
/// that declares a fresh actor, and any other line assigns a property of
/// the current actor: `name` takes the text after `=`, trimmed but with
/// any quotes kept, and `sprites` takes a map literal — decoded at once
/// when the text after `=` already closes it, accumulated otherwise.
pub open spec fn step(st: StateSpec, line: Seq<char>) -> Result<StateSpec, ErrorSpec> {
    match st.buf {
        Some(b) => {
            let buf2 = b + line;
            if closes_literal(line) {
                match st.cur {
                    Some(id) => {
                        let a = st.pool[id];
                        match decode_sprite_map(buf2, a.sprites) {
                            Ok(m) => Ok(
                                StateSpec {
                                    pool: st.pool.insert(id, ActorSpec { name: a.name, sprites: m }),
                                    cur: st.cur,
                                    buf: None,
                                },
                            ),
                            Err(e) => Err(e),
                        }
                    },
                    None => Ok(StateSpec { pool: st.pool, cur: st.cur, buf: None }),
                }
            } else {
                Ok(StateSpec { pool: st.pool, cur: st.cur, buf: Some(buf2) })
            }
        },
        None => {
            if line.len() > 0 && line[0] == '[' {
                if line.len() < 2 || line.last() != ']' {
                    Err(ErrorSpec::MalformedHeader)
                } else {
                    let id = line.subrange(1, line.len() - 1);
                    if st.pool.contains_key(id) {
                        Err(ErrorSpec::DuplicateActor(id))
                    } else {
                        Ok(
                            StateSpec {
                                pool: st.pool.insert(id, default_actor()),
                                cur: Some(id),
                                buf: None,
                            },
                        )
                    }
                }
            } else {
                match find_char(line, '=') {
                    None => Err(ErrorSpec::MissingAssignment),
                    Some(eq) => {
                        let pname = trim(line.subrange(0, eq));
                        if find_char(pname, ' ') is Some {
                            Err(ErrorSpec::InvalidPropertyName(pname))
                        } else {
                            match st.cur {
                                None => Err(ErrorSpec::NoCurrentActor),
                                Some(id) => {
                                    let raw = line.subrange(eq + 1, line.len() as int);
                                    if pname == "name"@ {
                                        let a = st.pool[id];
                                        Ok(
                                            StateSpec {
                                                pool: st.pool.insert(
                                                    id,
                                                    ActorSpec { name: trim(raw), sprites: a.sprites },
                                                ),
                                                cur: st.cur,
                                                buf: None,
                                            },
                                        )
                                    } else if pname == "sprites"@ {
                                        if closes_literal(raw) {
                                            let a = st.pool[id];
                                            match decode_sprite_map(raw, a.sprites) {
                                                Ok(m) => Ok(
                                                    StateSpec {
                                                        pool: st.pool.insert(
                                                            id,
                                                            ActorSpec { name: a.name, sprites: m },
                                                        ),
                                                        cur: st.cur,
                                                        buf: None,
                                                    },
                                                ),
                                                Err(e) => Err(e),
                                            }
                                        } else {
                                            Ok(
                                                StateSpec {
                                                    pool: st.pool,
                                                    cur: st.cur,
                                                    buf: Some(raw),
                                                },
                                            )
                                        }
                                    } else {
                                        Err(ErrorSpec::UnknownProperty(pname))
                                    }
                                },
                            }
                        }
                    },
                }
            }
        },
    }
}

/// The state after the first `n` lines, or the first error among them.
pub open spec fn run(lines: Seq<Seq<char>>, n: int) -> Result<StateSpec, ErrorSpec>
    decreases n,
{
    if n <= 0 {
        Ok(init_state())
    } else {
        match run(lines, n - 1) {
            Err(e) => Err(e),
            Ok(st) => step(st, lines[n - 1]),
        }
    }
}

/// What parsing a declarations line list yields: the pool of the state
/// after the last line, or the first error. A map literal still open at
/// the end of the input is discarded.
pub open spec fn spec_parse_decls(lines: Seq<Seq<char>>) -> Result<
    Map<Seq<char>, ActorSpec>,
    ErrorSpec,
> {
    match run(lines, lines.len() as int) {
        Err(e) => Err(e),
        Ok(st) => Ok(st.pool),
    }
}

/// Once a line has failed, the outcome of the whole run is that failure.
pub proof fn lemma_run_err(lines: Seq<Seq<char>>, n: int, m: int)
    requires
        0 <= n <= m,
        run(lines, n) is Err,
    ensures
        run(lines, m) == run(lines, n),
    decreases m,
{
    if m > n {
        lemma_run_err(lines, n, m - 1);
    }
}

/// Every reachable state is well formed: a literal in progress always
/// belongs to a current actor, and the current actor is in the pool.
pub open spec fn state_wf(st: StateSpec) -> bool {
    &&& st.buf is Some ==> st.cur is Some
    &&& st.cur matches Some(id) ==> st.pool.contains_key(id)
}

/// Every state the machine reaches is well formed.
pub proof fn lemma_run_wf(lines: Seq<Seq<char>>, n: int)
    ensures
        run(lines, n) matches Ok(st) ==> state_wf(st),
    decreases n,
{
    if n > 0 {
        lemma_run_wf(lines, n - 1);
    }
}

} // verus!
