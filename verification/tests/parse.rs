//! Tests of the declaration parser: the documented scenarios, one input
//! for every error, and the edge cases of the map-literal grammar.

use vnscript::actor::ParseError;
use vnscript::parser::parse_decls;

fn lines(xs: &[&str]) -> Vec<String> {
    xs.iter().map(|x| x.to_string()).collect()
}

#[test]
fn scenario_single_name() {
    let pool = parse_decls(&lines(&["[hero]", "name=\"Aria\""])).unwrap();
    assert_eq!(pool.len(), 1);
    let hero = pool.get("hero").unwrap();
    assert_eq!(hero.name, "\"Aria\"");
    assert_eq!(hero.sprites.len(), 0);
}

#[test]
fn scenario_sprites_single_line() {
    let pool = parse_decls(&lines(&["[hero]", "sprites={init:\"a.png\", idle:\"b.png\"}"]))
        .unwrap();
    assert_eq!(pool.len(), 1);
    let hero = pool.get("hero").unwrap();
    assert_eq!(hero.name, "");
    assert_eq!(hero.sprites.len(), 2);
    assert_eq!(hero.sprites.get("init").unwrap().as_str(), "a.png");
    assert_eq!(hero.sprites.get("idle").unwrap().as_str(), "b.png");
}

#[test]
fn scenario_multi_line_map() {
    let a = parse_decls(&lines(&["[hero]", "sprites={init:\"a.png\", idle:\"b.png\"}"])).unwrap();
    let b = parse_decls(&lines(&["[hero]", "sprites={init:\"a.png\",", "idle:\"b.png\"}"]))
        .unwrap();
    assert_eq!(a, b);
    let hero = b.get("hero").unwrap();
    assert_eq!(hero.sprites.get("init").unwrap().as_str(), "a.png");
    assert_eq!(hero.sprites.get("idle").unwrap().as_str(), "b.png");
}

#[test]
fn scenario_duplicate_actor() {
    let r = parse_decls(&lines(&["[hero]", "[hero]"]));
    assert_eq!(r.unwrap_err(), ParseError::DuplicateActor("hero".to_string()));
}

#[test]
fn scenario_unknown_property() {
    let r = parse_decls(&lines(&["[hero]", "color=\"red\""]));
    assert_eq!(r.unwrap_err(), ParseError::UnknownProperty("color".to_string()));
}

#[test]
fn missing_init_key_fails() {
    let r = parse_decls(&lines(&["[hero]", "sprites={idle:\"b.png\"}"]));
    assert_eq!(r.unwrap_err(), ParseError::MissingInitKey);
}

#[test]
fn property_name_with_space_fails() {
    let r = parse_decls(&lines(&["[hero]", "bad name=\"x\""]));
    assert_eq!(
        r.unwrap_err(),
        ParseError::InvalidPropertyName("bad name".to_string())
    );
}

#[test]
fn malformed_header_fails() {
    let r = parse_decls(&lines(&["[hero"]));
    assert_eq!(r.unwrap_err(), ParseError::MalformedHeader);
}

#[test]
fn missing_assignment_fails() {
    let r = parse_decls(&lines(&["[hero]", "name \"Aria\""]));
    assert_eq!(r.unwrap_err(), ParseError::MissingAssignment);
}

#[test]
fn property_before_header_fails() {
    let r = parse_decls(&lines(&["name=\"Aria\""]));
    assert_eq!(r.unwrap_err(), ParseError::NoCurrentActor);
}

#[test]
fn malformed_map_entry_without_colon_fails() {
    let r = parse_decls(&lines(&["[hero]", "sprites={init:\"a.png\",broken}"]));
    assert_eq!(
        r.unwrap_err(),
        ParseError::MalformedMapEntry("broken".to_string())
    );
}

#[test]
fn malformed_map_entry_short_value_fails() {
    let r = parse_decls(&lines(&["[hero]", "sprites={init:\"}"]));
    assert_eq!(
        r.unwrap_err(),
        ParseError::MalformedMapEntry("init:\"".to_string())
    );
}

#[test]
fn parse_is_idempotent() {
    let input = lines(&[
        "[hero]",
        "name=\"Aria\"",
        "sprites={init:\"a.png\",",
        "idle:\"b.png\"}",
        "[villain]",
        "name=\"Mor\"",
    ]);
    let first = parse_decls(&input).unwrap();
    let second = parse_decls(&input).unwrap();
    assert_eq!(first, second);
}

#[test]
fn two_actors_with_properties() {
    let pool = parse_decls(&lines(&[
        "[hero]",
        "name=\"Aria\"",
        "[villain]",
        "name=\"Mor\"",
        "sprites={init:\"m.png\"",
        "}",
    ]))
    .unwrap();
    assert_eq!(pool.len(), 2);
    assert_eq!(pool.get("hero").unwrap().name, "\"Aria\"");
    let villain = pool.get("villain").unwrap();
    assert_eq!(villain.name, "\"Mor\"");
    assert_eq!(villain.sprites.get("init").unwrap().as_str(), "m.png");
    assert!(!pool.contains_key("narrator"));
}

#[test]
fn repeated_sprite_label_overwrites() {
    let pool = parse_decls(&lines(&["[hero]", "sprites={init:\"a.png\", init:\"c.png\"}"]))
        .unwrap();
    let hero = pool.get("hero").unwrap();
    assert_eq!(hero.sprites.len(), 1);
    assert_eq!(hero.sprites.get("init").unwrap().as_str(), "c.png");
}

#[test]
fn standalone_closing_line_still_terminates() {
    let a = parse_decls(&lines(&["[hero]", "sprites={init:\"a.png\"", "}"])).unwrap();
    let b = parse_decls(&lines(&["[hero]", "sprites={init:\"a.png\"}"])).unwrap();
    assert_eq!(a, b);
    assert_eq!(a.get("hero").unwrap().sprites.get("init").unwrap().as_str(), "a.png");
}

#[test]
fn unterminated_map_literal_is_discarded() {
    let pool = parse_decls(&lines(&["[hero]", "sprites={init:\"a.png\""])).unwrap();
    let hero = pool.get("hero").unwrap();
    assert_eq!(hero.sprites.len(), 0);
}

#[test]
fn name_value_is_trimmed_but_keeps_quotes() {
    let pool = parse_decls(&lines(&["[hero]", "name =   \"Aria\"  "])).unwrap();
    assert_eq!(pool.get("hero").unwrap().name, "\"Aria\"");
}

#[test]
fn empty_actor_id_is_accepted() {
    let pool = parse_decls(&lines(&["[]", "name=\"x\""])).unwrap();
    assert_eq!(pool.len(), 1);
    assert_eq!(pool.get("").unwrap().name, "\"x\"");
}

#[test]
fn empty_input_gives_empty_pool() {
    let pool = parse_decls(&Vec::new()).unwrap();
    assert_eq!(pool.len(), 0);
    assert!(pool.get("hero").is_none());
}
