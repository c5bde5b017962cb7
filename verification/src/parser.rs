//! The declaration parser: one pass over the pre-trimmed, non-empty lines
//! of the declarations section, building an [`ActorPool`] or stopping at
//! the first error. Every function here returns exactly what the state
//! machine of [`crate::model`] prescribes.

use crate::actor::Actor;
use crate::actor::ActorPool;
use crate::actor::ParseError;
use crate::actor::SpriteMap;
use crate::model::closes_literal;
use crate::model::decode_entry;
use crate::model::decode_sprite_map;
use crate::model::init_state;
use crate::model::insert_entries;
use crate::model::lemma_run_err;
use crate::model::run;
use crate::model::spec_parse_decls;
use crate::model::ActorSpec;
use crate::model::ErrorSpec;
use crate::model::StateSpec;
use crate::text::find_char_str;
use crate::text::lemma_find_char_props;
use crate::text::split_commas;
use crate::text::split_commas_str;
use crate::text::starts_with_str;
use crate::text::str_eq;
use crate::text::strip_chars;
use crate::text::strip_str;
use crate::text::trim;
use crate::text::trim_str;
use vstd::prelude::*;
use vstd::string::StrSliceExecFns;
use vstd::string::StringExecFns;

verus! {

/// Whether a piece of text completes a map literal: its trimmed form
/// ends with the closing brace.
fn closes_literal_str(s: &str) -> (r: bool)
    ensures
        r == closes_literal(s@),
{
    let t = trim_str(s);
    let n = t.unicode_len();
    if n == 0 {
        false
    } else {
        t.get_char(n - 1) == '}'
    }
}

/// One key-value token of a cleaned map literal, split at its first colon
/// and unquoted.
fn decode_token(tok: &str) -> (r: Result<(String, String), ParseError>)
    ensures
        match r {
            Ok(kv) => decode_entry(tok@) == Ok::<_, ErrorSpec>((kv.0@, kv.1@)),
            Err(e) => decode_entry(tok@) == Err::<(Seq<char>, Seq<char>), _>(e@),
        },
{
    proof {
        lemma_find_char_props(tok@, ':');
    }
    match find_char_str(tok, ':') {
        None => Err(ParseError::MalformedMapEntry(String::from_str(tok))),
        Some(ci) => {
            let len = tok.unicode_len();
            if len - (ci + 1) < 2 {
                Err(ParseError::MalformedMapEntry(String::from_str(tok)))
            } else {
                let key = tok.substring_char(0, ci);
                let val = tok.substring_char(ci + 2, len - 1);
                proof {
                    let value = tok@.subrange(ci + 1, tok@.len() as int);
                    assert(val@ =~= value.subrange(1, value.len() - 1));
                }
                Ok((String::from_str(key), String::from_str(val)))
            }
        },
    }
}

/// A finished map literal decoded into `sprites`: trimmed, cleared of
/// spaces and braces, split on commas; the first token must open with
/// `init:`, and each token adds one sprite, repeated labels overwriting.
#[verifier::loop_isolation(false)]
fn decode_sprites(buf: &str, sprites: &mut SpriteMap) -> (r: Result<(), ParseError>)
    requires
        old(sprites).wf(),
    ensures
        match r {
            Ok(_) => final(sprites).wf() && decode_sprite_map(buf@, old(sprites)@) == Ok::<
                _,
                ErrorSpec,
            >(final(sprites)@),
            Err(e) => decode_sprite_map(buf@, old(sprites)@) == Err::<
                Map<Seq<char>, Seq<char>>,
                _,
            >(e@),
        },
{
    let trimmed = trim_str(buf);
    let cleaned = strip_str(trimmed);
    let toks = split_commas_str(cleaned.as_str());
    let ghost stoks = split_commas(strip_chars(trim(buf@)));
    proof {
        assert(toks@.map_values(|t: String| t@) == stoks);
        assert(stoks.len() >= 1);
        assert(toks@[0]@ == stoks[0]);
    }
    if !starts_with_str(toks[0].as_str(), "init:") {
        return Err(ParseError::MissingInitKey);
    }
    let ghost m0 = sprites@;
    proof {
        assert(stoks.subrange(0, stoks.len() as int) =~= stoks);
    }
    let mut k: usize = 0;
    while k < toks.len()
        invariant
            k <= toks@.len(),
            toks@.map_values(|t: String| t@) == stoks,
            sprites.wf(),
            insert_entries(m0, stoks) == insert_entries(
                sprites@,
                stoks.subrange(k as int, stoks.len() as int),
            ),
        decreases toks@.len() - k,
    {
        let ghost rest = stoks.subrange(k as int, stoks.len() as int);
        proof {
            assert(toks@[k as int]@ == stoks[k as int]);
            assert(rest[0] == stoks[k as int]);
            assert(rest.subrange(1, rest.len() as int) =~= stoks.subrange(
                k + 1,
                stoks.len() as int,
            ));
        }
        match decode_token(toks[k].as_str()) {
            Ok(kv) => {
                sprites.insert(kv.0, kv.1);
            },
            Err(e) => {
                return Err(e);
            },
        }
        k += 1;
    }
    proof {
        assert(stoks.subrange(stoks.len() as int, stoks.len() as int) =~= Seq::<
            Seq<char>,
        >::empty());
    }
    Ok(())
}

/// The machine state the parser's locals stand for: the pool of committed
/// actors with the in-progress actor inserted on top.
spec fn parser_view(
    pool: ActorPool,
    cur_id: Option<String>,
    cur_actor: Actor,
    buf: Option<String>,
) -> StateSpec {
    StateSpec {
        pool: match cur_id {
            Some(id) => pool@.insert(id@, cur_actor@),
            None => pool@,
        },
        cur: match cur_id {
            Some(id) => Some(id@),
            None => None,
        },
        buf: match buf {
            Some(b) => Some(b@),
            None => None,
        },
    }
}

/// Parse the lines of a declarations section into a pool of actors, or
/// report the first violation. The outcome is exactly what
/// [`spec_parse_decls`] prescribes for the lines' character sequences.
#[verifier::loop_isolation(false)]
pub fn parse_decls(lines: &Vec<String>) -> (r: Result<ActorPool, ParseError>)
    ensures
        match r {
            Ok(pool) => pool.wf() && spec_parse_decls(lines@.map_values(|l: String| l@)) == Ok::<
                _,
                ErrorSpec,
            >(pool@),
            Err(e) => spec_parse_decls(lines@.map_values(|l: String| l@)) == Err::<
                Map<Seq<char>, ActorSpec>,
                _,
            >(e@),
        },
{
    let ghost slines = lines@.map_values(|l: String| l@);
    let mut pool = ActorPool::new();
    let mut cur_id: Option<String> = None;
    let mut cur_actor: Actor = Actor::default();
    let mut buf: Option<String> = None;
    proof {
        assert(parser_view(pool, cur_id, cur_actor, buf) == init_state());
    }
    let mut i: usize = 0;
    while i < lines.len()
        invariant
            i <= lines@.len(),
            run(slines, i as int) == Ok::<_, ErrorSpec>(parser_view(pool, cur_id, cur_actor, buf)),
            pool.wf(),
            cur_actor.wf(),
            cur_id matches Some(id) ==> !pool@.contains_key(id@),
            buf is Some ==> cur_id is Some,
        decreases lines@.len() - i,
    {
        let ghost st = parser_view(pool, cur_id, cur_actor, buf);
        let line = &lines[i];
        proof {
            assert(slines[i as int] == line@);
        }
        if buf.is_some() {
            let mut b = buf.unwrap();
            b.append(line.as_str());
            if closes_literal_str(line.as_str()) {
                let ghost pre = cur_actor@;
                match decode_sprites(b.as_str(), &mut cur_actor.sprites) {
                    Ok(_) => {},
                    Err(e) => {
                        proof {
                            assert(run(slines, i + 1) == Err::<StateSpec, _>(e@));
                            lemma_run_err(slines, i + 1, slines.len() as int);
                        }
                        return Err(e);
                    },
                }
                buf = None;
                proof {
                    let id = st.cur->Some_0;
                    assert(st.pool[id] == pre);
                    assert(cur_actor@ == ActorSpec { name: pre.name, sprites: cur_actor.sprites@ });
                    assert(st.pool.insert(
                        id,
                        ActorSpec { name: pre.name, sprites: cur_actor.sprites@ },
                    ) =~= pool@.insert(id, cur_actor@));
                    assert(run(slines, i + 1) == Ok::<StateSpec, ErrorSpec>(
                        parser_view(pool, cur_id, cur_actor, buf),
                    ));
                }
            } else {
                buf = Some(b);
                proof {
                    assert(run(slines, i + 1) == Ok::<StateSpec, ErrorSpec>(
                        parser_view(pool, cur_id, cur_actor, buf),
                    ));
                }
            }
        } else {
            let len = line.as_str().unicode_len();
            if len > 0 && line.as_str().get_char(0) == '[' {
                if len < 2 || line.as_str().get_char(len - 1) != ']' {
                    proof {
                        assert(run(slines, i + 1) == Err::<StateSpec, _>(
                            ErrorSpec::MalformedHeader,
                        ));
                        lemma_run_err(slines, i + 1, slines.len() as int);
                    }
                    return Err(ParseError::MalformedHeader);
                }
                let id = String::from_str(line.as_str().substring_char(1, len - 1));
                let dup = pool.contains_key(id.as_str()) || (match &cur_id {
                    Some(c) => str_eq(c.as_str(), id.as_str()),
                    None => false,
                });
                if dup {
                    proof {
                        assert(st.pool.contains_key(id@));
                        assert(run(slines, i + 1) == Err::<StateSpec, _>(
                            ErrorSpec::DuplicateActor(id@),
                        ));
                        lemma_run_err(slines, i + 1, slines.len() as int);
                    }
                    return Err(ParseError::DuplicateActor(id));
                }
                proof {
                    assert(!st.pool.contains_key(id@));
                }
                if let Some(cid) = cur_id {
                    pool.push_new(cid, cur_actor);
                }
                cur_id = Some(id);
                cur_actor = Actor::default();
                proof {
                    assert(pool@ == st.pool);
                    assert(run(slines, i + 1) == Ok::<StateSpec, ErrorSpec>(
                        parser_view(pool, cur_id, cur_actor, buf),
                    ));
                }
            } else {
                proof {
                    lemma_find_char_props(line@, '=');
                }
                match find_char_str(line.as_str(), '=') {
                    None => {
                        proof {
                            assert(run(slines, i + 1) == Err::<StateSpec, _>(
                                ErrorSpec::MissingAssignment,
                            ));
                            lemma_run_err(slines, i + 1, slines.len() as int);
                        }
                        return Err(ParseError::MissingAssignment);
                    },
                    Some(eq) => {
                        let pname = trim_str(line.as_str().substring_char(0, eq));
                        if find_char_str(pname, ' ').is_some() {
                            proof {
                                assert(run(slines, i + 1) == Err::<StateSpec, _>(
                                    ErrorSpec::InvalidPropertyName(pname@),
                                ));
                                lemma_run_err(slines, i + 1, slines.len() as int);
                            }
                            return Err(ParseError::InvalidPropertyName(String::from_str(pname)));
                        }
                        if cur_id.is_none() {
                            proof {
                                assert(run(slines, i + 1) == Err::<StateSpec, _>(
                                    ErrorSpec::NoCurrentActor,
                                ));
                                lemma_run_err(slines, i + 1, slines.len() as int);
                            }
                            return Err(ParseError::NoCurrentActor);
                        }
                        let raw = line.as_str().substring_char(eq + 1, len);
                        if str_eq(pname, "name") {
                            cur_actor.name = String::from_str(trim_str(raw));
                            proof {
                                let id = st.cur->Some_0;
                                assert(st.pool.insert(
                                    id,
                                    ActorSpec { name: trim(raw@), sprites: st.pool[id].sprites },
                                ) =~= pool@.insert(id, cur_actor@));
                                assert(run(slines, i + 1) == Ok::<StateSpec, ErrorSpec>(
                                    parser_view(pool, cur_id, cur_actor, buf),
                                ));
                            }
                        } else if str_eq(pname, "sprites") {
                            if closes_literal_str(raw) {
                                let ghost pre = cur_actor@;
                                match decode_sprites(raw, &mut cur_actor.sprites) {
                                    Ok(_) => {},
                                    Err(e) => {
                                        proof {
                                            assert(run(slines, i + 1) == Err::<StateSpec, _>(e@));
                                            lemma_run_err(slines, i + 1, slines.len() as int);
                                        }
                                        return Err(e);
                                    },
                                }
                                proof {
                                    let id = st.cur->Some_0;
                                    assert(st.pool[id] == pre);
                                    assert(cur_actor@ == ActorSpec {
                                        name: pre.name,
                                        sprites: cur_actor.sprites@,
                                    });
                                    assert(st.pool.insert(
                                        id,
                                        ActorSpec { name: pre.name, sprites: cur_actor.sprites@ },
                                    ) =~= pool@.insert(id, cur_actor@));
                                    assert(run(slines, i + 1) == Ok::<StateSpec, ErrorSpec>(
                                        parser_view(pool, cur_id, cur_actor, buf),
                                    ));
                                }
                            } else {
                                buf = Some(String::from_str(raw));
                                proof {
                                    assert(run(slines, i + 1) == Ok::<StateSpec, ErrorSpec>(
                                        parser_view(pool, cur_id, cur_actor, buf),
                                    ));
                                }
                            }
                        } else {
                            proof {
                                assert(run(slines, i + 1) == Err::<StateSpec, _>(
                                    ErrorSpec::UnknownProperty(pname@),
                                ));
                                lemma_run_err(slines, i + 1, slines.len() as int);
                            }
                            return Err(ParseError::UnknownProperty(String::from_str(pname)));
                        }
                    },
                }
            }
        }
        i += 1;
    }
    if let Some(cid) = cur_id {
        pool.push_new(cid, cur_actor);
    }
    Ok(pool)
}

} // verus!
