use schem::block::{Block, ParseError};

#[test]
fn parse_oak_log_roundtrip() {
    let b = Block::from_str("minecraft:oak_log[axis=y]").unwrap();
    assert_eq!(b.canonical_string(), "minecraft:oak_log[axis=y]");
}

#[test]
fn parse_missing_close_bracket_fails() {
    let r = Block::from_str("minecraft:oak_log[axis=y");
    assert_eq!(r.unwrap_err(), ParseError::MalformedBracket);
}

#[test]
fn parse_plain_id_roundtrip() {
    let b = Block::from_str("minecraft:stone").unwrap();
    assert_eq!(b.canonical_string(), "minecraft:stone");
}

#[test]
fn parse_sorted_props_roundtrip() {
    let b = Block::from_str("mod:thing[a=1,b=2,c=3]").unwrap();
    assert_eq!(b.canonical_string(), "mod:thing[a=1,b=2,c=3]");
}

#[test]
fn parse_unsorted_props_canonicalized() {
    let b = Block::from_str("mod:thing[b=2,a=1]").unwrap();
    assert_eq!(b.canonical_string(), "mod:thing[a=1,b=2]");
}

#[test]
fn parse_duplicate_key_overwrites() {
    let b = Block::from_str("mod:thing[k=1,k=2]").unwrap();
    assert_eq!(b.canonical_string(), "mod:thing[k=2]");
}

#[test]
fn parse_clause_without_equals_fails() {
    let r = Block::from_str("mod:thing[x]");
    assert_eq!(r.unwrap_err(), ParseError::MissingEquals);
}

#[test]
fn parse_empty_brackets_fail() {
    let r = Block::from_str("mod:thing[]");
    assert_eq!(r.unwrap_err(), ParseError::MissingEquals);
}

#[test]
fn parse_lone_open_bracket_fails() {
    let r = Block::from_str("mod:thing[");
    assert_eq!(r.unwrap_err(), ParseError::MalformedBracket);
}

#[test]
fn parse_value_with_equals_roundtrip() {
    let b = Block::from_str("mod:thing[k=v=w]").unwrap();
    assert_eq!(b.canonical_string(), "mod:thing[k=v=w]");
}
