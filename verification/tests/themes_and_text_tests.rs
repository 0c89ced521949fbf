//! Themes, export rendering and text helpers.

use cocookies::model::{Recipe, RecipeIngredient, RecipeNote, RecipeStep};
use cocookies::text::{get_file_extension, truncate_str_with_ellipsis};
use cocookies::themes::{
    dark_theme, fresh_theme, pink_theme, render_export_html, simple_theme, PdfTheme,
};

#[test]
fn theme_styles_match_their_functions() {
    assert_eq!(PdfTheme::Simple.get_style(), simple_theme());
    assert_eq!(PdfTheme::Fresh.get_style(), fresh_theme());
    assert_eq!(PdfTheme::Dark.get_style(), dark_theme());
    assert_eq!(PdfTheme::Pink.get_style(), pink_theme());
    assert!(simple_theme().contains(".ingredient"));
}

#[test]
fn theme_default_and_names() {
    assert_eq!(PdfTheme::default(), PdfTheme::Simple);
    assert_eq!(PdfTheme::Simple.name(), "Simple");
    assert_eq!(PdfTheme::Pink.name(), "Pink");
}

#[test]
fn theme_from_str_trims_and_rejects() {
    assert_eq!(PdfTheme::from_str("Dark").unwrap(), PdfTheme::Dark);
    assert_eq!(PdfTheme::from_str("  Fresh\n").unwrap(), PdfTheme::Fresh);
    let err = PdfTheme::from_str(" neon ").unwrap_err();
    assert_eq!(err.invalid_value, " neon ");
}

#[test]
fn theme_from_str_trims_all_whitespace() {
    // The whole Unicode White_Space set is trimmed, as the standard trim
    // does: form feed, next line, no-break space, ideographic space.
    assert_eq!(PdfTheme::from_str("Simple\u{c}").unwrap(), PdfTheme::Simple);
    assert_eq!(PdfTheme::from_str("\u{85}Dark\u{a0}").unwrap(), PdfTheme::Dark);
    assert_eq!(PdfTheme::from_str("\u{2009}Pink\u{3000}").unwrap(), PdfTheme::Pink);
    assert_eq!(
        PdfTheme::from_str("\u{200b}Fresh").unwrap_err().invalid_value,
        "\u{200b}Fresh",
    );
}

#[test]
fn render_export_html_builds_document() {
    let recipe = Recipe {
        recipe_id: Some(1),
        name: "Pancakes".to_string(),
        description: Some("Fluffy.".to_string()),
        prep_time_minutes: Some(20),
        servings: Some(4),
        main_photo: None,
        created_at: None,
        updated_at: None,
    };
    let ingredients = vec![
        RecipeIngredient {
            recipe_ingredient_id: Some(1),
            recipe_id: 1,
            ingredient_name: "Flour".to_string(),
            quantity: Some("2".to_string()),
            unit: Some("cups".to_string()),
            created_at: None,
            updated_at: None,
        },
        RecipeIngredient {
            recipe_ingredient_id: Some(2),
            recipe_id: 1,
            ingredient_name: "Egg".to_string(),
            quantity: None,
            unit: None,
            created_at: None,
            updated_at: None,
        },
    ];
    let steps = vec![RecipeStep {
        step_id: Some(1),
        recipe_id: 1,
        step_number: 1,
        instructions: "Mix and cook.".to_string(),
        created_at: None,
        updated_at: None,
    }];
    let notes: Vec<RecipeNote> = Vec::new();
    let html = render_export_html(&recipe, &ingredients, &steps, &notes, PdfTheme::Simple);
    assert!(html.starts_with("<!DOCTYPE html>"));
    assert!(html.contains("<h1>Pancakes</h1>"));
    assert!(html.contains("Fluffy. (4 servings, 20min)"));
    assert!(html.contains("<p class=\"ingredient\">2 cups - Flour</p>"));
    assert!(html.contains("<p class=\"ingredient\">Egg</p>"));
    assert!(html.contains("<p class=\"step\">Mix and cook.</p>"));
    assert!(html.contains("<p>No Notes...</p>"));
    assert!(html.contains(simple_theme()));
    assert!(html.ends_with("</body></html>"));
}

#[test]
fn render_defaults_for_absent_meta() {
    let recipe = Recipe {
        recipe_id: None,
        name: "Bare".to_string(),
        description: None,
        prep_time_minutes: None,
        servings: None,
        main_photo: None,
        created_at: None,
        updated_at: None,
    };
    let html = render_export_html(&recipe, &Vec::new(), &Vec::new(), &Vec::new(), PdfTheme::Dark);
    assert!(html.contains(" (0 servings, 0min)"));
    assert!(html.contains("<p>No Ingredients...</p>"));
    assert!(html.contains("<p>No Steps...</p>"));
}

#[test]
fn truncate_keeps_short_strings() {
    assert_eq!(truncate_str_with_ellipsis("hello", 10), "hello");
    assert_eq!(truncate_str_with_ellipsis("hello", 5), "hello");
    assert_eq!(truncate_str_with_ellipsis("", 0), "");
}

#[test]
fn truncate_cuts_at_byte_limit() {
    assert_eq!(truncate_str_with_ellipsis("hello world", 5), "hello...");
    assert_eq!(truncate_str_with_ellipsis("abc", 2), "ab...");
}

#[test]
fn truncate_never_splits_a_character() {
    // The accented character takes two bytes, so a one-byte budget keeps
    // only the plain prefix.
    assert_eq!(truncate_str_with_ellipsis("héllo", 2), "h...");
    assert_eq!(truncate_str_with_ellipsis("héllo", 3), "hé...");
}

#[test]
fn file_extension_of_mime_types() {
    assert_eq!(get_file_extension("image/png"), Some("png"));
    assert_eq!(get_file_extension("image/jpeg"), Some("jpeg"));
    assert_eq!(get_file_extension("image/jpg"), Some("jpg"));
    assert_eq!(get_file_extension("image/webp"), Some("webp"));
    assert_eq!(get_file_extension("image/gif"), None);
    assert_eq!(get_file_extension("image/svg+xml"), None);
    assert_eq!(get_file_extension("text/plain"), None);
}
