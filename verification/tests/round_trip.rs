//! Tests of the sprite-table encoder, its round trip through the parser,
//! the data types' own operations and the section splitter.

use vnscript::actor::{Actor, SpriteMap};
use vnscript::encode::encode_sprites;
use vnscript::parser::parse_decls;
use vnscript::sections::split_sections;

fn lines(xs: &[&str]) -> Vec<String> {
    xs.iter().map(|x| x.to_string()).collect()
}

#[test]
fn encode_then_parse_round_trips() {
    let mut sprites = SpriteMap::new();
    sprites.insert("idle".to_string(), "b.png".to_string());
    sprites.insert("init".to_string(), "a.png".to_string());
    sprites.insert("run".to_string(), "c.png".to_string());
    let encoded = encode_sprites(&sprites);
    let assignment = format!("sprites={}", encoded);
    let pool = parse_decls(&lines(&["[hero]", &assignment])).unwrap();
    let back = &pool.get("hero").unwrap().sprites;
    assert_eq!(back.len(), 3);
    assert_eq!(back.get("init").unwrap().as_str(), "a.png");
    assert_eq!(back.get("idle").unwrap().as_str(), "b.png");
    assert_eq!(back.get("run").unwrap().as_str(), "c.png");
}

#[test]
fn encode_puts_init_first() {
    let mut sprites = SpriteMap::new();
    sprites.insert("zzz".to_string(), "z.png".to_string());
    sprites.insert("init".to_string(), "a.png".to_string());
    let encoded = encode_sprites(&sprites);
    assert!(encoded.starts_with("{init:\"a.png\""));
    assert!(encoded.ends_with("}"));
}

#[test]
fn encode_single_entry() {
    let mut sprites = SpriteMap::new();
    sprites.insert("init".to_string(), "a.png".to_string());
    assert_eq!(encode_sprites(&sprites), "{init:\"a.png\"}");
}

#[test]
fn sprite_map_operations() {
    let mut sprites = SpriteMap::new();
    assert_eq!(sprites.len(), 0);
    assert!(!sprites.contains_key("init"));
    sprites.insert("init".to_string(), "a.png".to_string());
    sprites.insert("init".to_string(), "b.png".to_string());
    assert_eq!(sprites.len(), 1);
    assert!(sprites.contains_key("init"));
    assert_eq!(sprites.get("init").unwrap().as_str(), "b.png");
    assert!(sprites.get("idle").is_none());
}

#[test]
fn default_actor_is_blank() {
    let actor = Actor::default();
    assert_eq!(actor.name, "");
    assert_eq!(actor.sprites.len(), 0);
}

#[test]
fn sections_are_split_on_markers() {
    let raw = lines(&[
        "",
        "#decls",
        "[hero]",
        "name=\"Aria\"",
        "#enddecls",
        "",
        "#script",
        "hero says hi",
        "#endscript",
    ]);
    let (decls, script) = split_sections(&raw);
    assert_eq!(decls, lines(&["[hero]", "name=\"Aria\""]));
    assert_eq!(script, lines(&["hero says hi"]));
}

#[test]
fn sections_ignore_text_outside_markers() {
    let raw = lines(&["stray", "#decls", "[a]", "#enddecls", "tail"]);
    let (decls, script) = split_sections(&raw);
    assert_eq!(decls, lines(&["[a]"]));
    assert!(script.is_empty());
}
