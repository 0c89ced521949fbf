//! Round-trip and decode-failure behavior of the document codec.

use cocookies::codec::{decode, encode};
use cocookies::model::{FullRecipe, RecipeIngredient, RecipeNote, RecipeStep};

fn ingredient(
    id: Option<i32>,
    recipe_id: i32,
    name: &str,
    quantity: Option<&str>,
    unit: Option<&str>,
) -> RecipeIngredient {
    RecipeIngredient {
        recipe_ingredient_id: id,
        recipe_id,
        ingredient_name: name.to_string(),
        quantity: quantity.map(|s| s.to_string()),
        unit: unit.map(|s| s.to_string()),
        created_at: None,
        updated_at: None,
    }
}

fn step(id: Option<i32>, recipe_id: i32, number: i32, text: &str) -> RecipeStep {
    RecipeStep {
        step_id: id,
        recipe_id,
        step_number: number,
        instructions: text.to_string(),
        created_at: None,
        updated_at: None,
    }
}

fn note(id: Option<i32>, recipe_id: i32, text: &str) -> RecipeNote {
    RecipeNote {
        note_id: id,
        recipe_id,
        note: text.to_string(),
        created_at: None,
        updated_at: None,
    }
}

fn empty_recipe(name: &str) -> FullRecipe {
    FullRecipe {
        recipe_id: None,
        name: name.to_string(),
        description: None,
        prep_time_minutes: None,
        servings: None,
        main_photo: None,
        created_at: None,
        updated_at: None,
        ingredients: Vec::new(),
        steps: Vec::new(),
        notes: Vec::new(),
    }
}

fn full_recipe() -> FullRecipe {
    FullRecipe {
        recipe_id: Some(7),
        name: "Crème brûlée with \"quotes\" and \\slashes\\".to_string(),
        description: Some("line one\nline two\ttabbed".to_string()),
        prep_time_minutes: Some(45),
        servings: Some(-2),
        main_photo: Some("photo.png".to_string()),
        created_at: Some("2024-01-02T03:04:05".to_string()),
        updated_at: Some("2024-01-02T03:04:06".to_string()),
        ingredients: vec![
            ingredient(Some(1), 7, "Sugar", Some("1/2"), Some("cup")),
            ingredient(Some(2), 7, "Cream", None, None),
        ],
        steps: vec![step(Some(1), 7, 1, "Mix."), step(Some(2), 7, 2, "Burn the top.")],
        notes: vec![note(Some(1), 7, "Serve cold.")],
    }
}

#[test]
fn round_trip_empty_collection() {
    let recipes: Vec<FullRecipe> = Vec::new();
    let text = encode(&recipes);
    assert_eq!(text, "[]");
    let back = decode(&text).expect("decode of empty export");
    assert_eq!(back, recipes);
}

#[test]
fn round_trip_minimal_recipe() {
    let recipes = vec![empty_recipe("Toast")];
    let text = encode(&recipes);
    let back = decode(&text).expect("decode");
    assert_eq!(back, recipes);
}

#[test]
fn round_trip_preserves_every_field() {
    let recipes = vec![full_recipe(), empty_recipe("Water")];
    let text = encode(&recipes);
    let back = decode(&text).expect("decode");
    assert_eq!(back, recipes);
}

#[test]
fn round_trip_distinguishes_absent_from_empty() {
    let mut with_empty = empty_recipe("A");
    with_empty.description = Some(String::new());
    let with_absent = empty_recipe("A");
    let text_empty = encode(&vec![with_empty.clone()]);
    let text_absent = encode(&vec![with_absent.clone()]);
    assert_ne!(text_empty, text_absent);
    assert_eq!(decode(&text_empty).unwrap()[0].description, Some(String::new()));
    assert_eq!(decode(&text_absent).unwrap()[0].description, None);
}

#[test]
fn encode_writes_canonical_text() {
    let text = encode(&vec![empty_recipe("X")]);
    assert_eq!(
        text,
        "[{\"recipe_id\":null,\"name\":\"X\",\"description\":null,\
         \"prep_time_minutes\":null,\"servings\":null,\"main_photo\":null,\
         \"created_at\":null,\"updated_at\":null,\"ingredients\":[],\
         \"steps\":[],\"notes\":[]}]"
    );
}

#[test]
fn encode_escapes_special_characters() {
    let mut r = empty_recipe("a\"b\\c\nd\te\rf");
    r.servings = Some(-3);
    let text = encode(&vec![r]);
    assert!(text.contains("\"name\":\"a\\\"b\\\\c\\nd\\te\\rf\""));
    assert!(text.contains("\"servings\":-3"));
}

#[test]
fn encode_escapes_control_characters() {
    // Control characters without a short escape come out as \u00XX, so
    // the text stays valid for outside tools.
    let r = empty_recipe("a\u{1}b\u{c}c\u{1f}d");
    let text = encode(&vec![r.clone()]);
    assert!(text.contains("\"name\":\"a\\u0001b\\u000cc\\u001fd\""));
    let back = decode(&text).expect("decode");
    assert_eq!(back, vec![r]);
}

#[test]
fn decode_missing_name_fails() {
    let text = "[{\"recipe_id\":1,\"ingredients\":[]}]";
    let err = decode(text);
    assert!(err.is_err());
    assert!(!err.err().unwrap().message.is_empty());
}

#[test]
fn decode_missing_children_defaults_to_empty() {
    let text = "[{\"name\":\"Soup\"}]";
    let got = decode(text).expect("decode");
    assert_eq!(got.len(), 1);
    assert_eq!(got[0].name, "Soup");
    assert!(got[0].ingredients.is_empty());
    assert!(got[0].steps.is_empty());
    assert!(got[0].notes.is_empty());
}

#[test]
fn decode_accepts_null_markers_and_any_key_order() {
    let text = "[{\"description\": null, \"name\": \"Stew\",\n  \"servings\": 4,\
                 \"ingredients\": null}]";
    let got = decode(text).expect("decode");
    assert_eq!(got[0].name, "Stew");
    assert_eq!(got[0].description, None);
    assert_eq!(got[0].servings, Some(4));
    assert!(got[0].ingredients.is_empty());
}

#[test]
fn decode_child_requires_recipe_id() {
    let text = "[{\"name\":\"Pie\",\"ingredients\":[{\"ingredient_name\":\"Apple\"}]}]";
    assert!(decode(text).is_err());
}

#[test]
fn decode_child_with_required_fields_succeeds() {
    let text = "[{\"name\":\"Pie\",\"ingredients\":[{\"recipe_id\":3,\
                 \"ingredient_name\":\"Apple\"}]}]";
    let got = decode(text).expect("decode");
    assert_eq!(got[0].ingredients.len(), 1);
    assert_eq!(got[0].ingredients[0].ingredient_name, "Apple");
    assert_eq!(got[0].ingredients[0].recipe_id, 3);
    assert_eq!(got[0].ingredients[0].recipe_ingredient_id, None);
}

#[test]
fn decode_rejects_malformed_text() {
    assert!(decode("").is_err());
    assert!(decode("not a document").is_err());
    assert!(decode("[{\"name\":\"X\"}").is_err());
    assert!(decode("{\"name\":\"X\"}").is_err());
    assert!(decode("[] trailing").is_err());
    assert!(decode("[{\"name\":7}]").is_err());
}

#[test]
fn decode_handles_escapes_and_whitespace() {
    // A \u escape must carry four hexadecimal digits.
    let bad = " [ {\"name\": \"a\\u{0}\" } ] ";
    assert!(decode(bad).is_err());
    // The accepted escapes decode to their characters.
    let ok = "[{\"name\":\"a\\\"b\\\\c\\nd\\te\\/f\\rg\"}]";
    let got = decode(ok).expect("decode");
    assert_eq!(got[0].name, "a\"b\\c\nd\te/f\rg");
}

#[test]
fn decode_unicode_escapes() {
    // Four-digit escapes cover control characters (as other exporters
    // write them) and any other scalar of the Basic Multilingual Plane,
    // in either hexadecimal case.
    let got = decode("[{\"name\":\"x\\u000cy\\u0041\\u20AC\"}]").expect("decode");
    assert_eq!(got[0].name, "x\u{c}yA\u{20ac}");
    // A lone surrogate is not a scalar value.
    assert!(decode("[{\"name\":\"\\ud800\"}]").is_err());
    // Too few digits.
    assert!(decode("[{\"name\":\"\\u12\"}]").is_err());
}

#[test]
fn decode_negative_and_large_numbers() {
    let got = decode("[{\"name\":\"N\",\"servings\":-12,\"prep_time_minutes\":2147483647}]")
        .expect("decode");
    assert_eq!(got[0].servings, Some(-12));
    assert_eq!(got[0].prep_time_minutes, Some(2147483647));
    // Out of 32-bit range is rejected rather than wrapped.
    assert!(decode("[{\"name\":\"N\",\"servings\":2147483648}]").is_err());
}
