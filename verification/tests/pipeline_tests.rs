//! Aggregation, store and bulk-import behavior, end to end.

use cocookies::aggregate::{aggregate_rows, JoinRow};
use cocookies::codec::{decode, encode};
use cocookies::model::{Config, Recipe, RecipeIngredient, RecipeNote, RecipeStep};
use cocookies::store::Store;
use cocookies::Error;

fn row(recipe_id: i32, name: &str) -> JoinRow {
    JoinRow {
        recipe_id,
        name: name.to_string(),
        description: None,
        prep_time_minutes: None,
        servings: None,
        main_photo: None,
        created_at: None,
        updated_at: None,
        ingredient_id: None,
        ingredient_name: String::new(),
        quantity: None,
        unit: None,
        step_id: None,
        step_number: 0,
        instructions: String::new(),
        note_id: None,
        note: String::new(),
    }
}

fn row_with(recipe_id: i32, name: &str, ing: Option<(i32, &str)>, st: Option<(i32, i32, &str)>) -> JoinRow {
    let mut r = row(recipe_id, name);
    if let Some((id, iname)) = ing {
        r.ingredient_id = Some(id);
        r.ingredient_name = iname.to_string();
    }
    if let Some((id, number, text)) = st {
        r.step_id = Some(id);
        r.step_number = number;
        r.instructions = text.to_string();
    }
    r
}

#[test]
fn aggregation_dedups_cartesian_rows() {
    // One recipe with 3 ingredients and 2 steps: the join yields 6 rows.
    let mut rows = Vec::new();
    for (ing_id, ing_name) in [(1, "Flour"), (2, "Egg"), (3, "Milk")] {
        for (st_id, number, text) in [(1, 1, "Mix."), (2, 2, "Bake.")] {
            rows.push(row_with(5, "Cake", Some((ing_id, ing_name)), Some((st_id, number, text))));
        }
    }
    assert_eq!(rows.len(), 6);
    let agg = aggregate_rows(&rows);
    assert_eq!(agg.len(), 1);
    assert_eq!(agg[0].recipe_id, Some(5));
    assert_eq!(agg[0].name, "Cake");
    assert_eq!(agg[0].ingredients.len(), 3);
    assert_eq!(agg[0].steps.len(), 2);
    assert_eq!(agg[0].notes.len(), 0);
}

#[test]
fn aggregation_orders_children() {
    // Steps arrive out of order and ingredients with shuffled identifiers.
    let rows = vec![
        row_with(9, "Bread", Some((30, "Salt")), Some((7, 3, "Bake."))),
        row_with(9, "Bread", Some((10, "Yeast")), Some((5, 1, "Knead."))),
        row_with(9, "Bread", Some((20, "Flour")), Some((6, 2, "Rest."))),
    ];
    let agg = aggregate_rows(&rows);
    assert_eq!(agg.len(), 1);
    let names: Vec<&str> =
        agg[0].ingredients.iter().map(|x| x.ingredient_name.as_str()).collect();
    assert_eq!(names, vec!["Yeast", "Flour", "Salt"]);
    let numbers: Vec<i32> = agg[0].steps.iter().map(|s| s.step_number).collect();
    assert_eq!(numbers, vec![1, 2, 3]);
    let texts: Vec<&str> = agg[0].steps.iter().map(|s| s.instructions.as_str()).collect();
    assert_eq!(texts, vec!["Knead.", "Rest.", "Bake."]);
}

#[test]
fn aggregation_skips_padding_children() {
    // A recipe with zero children: one padded row, empty collections.
    let rows = vec![row(3, "Plain")];
    let agg = aggregate_rows(&rows);
    assert_eq!(agg.len(), 1);
    assert_eq!(agg[0].recipe_id, Some(3));
    assert!(agg[0].ingredients.is_empty());
    assert!(agg[0].steps.is_empty());
    assert!(agg[0].notes.is_empty());
    // Nonpositive child identifiers are padding too.
    let mut padded = row(4, "Odd");
    padded.ingredient_id = Some(0);
    padded.ingredient_name = "phantom".to_string();
    let agg2 = aggregate_rows(&vec![padded]);
    assert!(agg2[0].ingredients.is_empty());
}

#[test]
fn aggregation_keeps_first_occurrence_per_child_id() {
    let mut second = row_with(2, "Tea", Some((8, "Leaves")), None);
    second.quantity = Some("2".to_string());
    let first = row_with(2, "Tea", Some((8, "Leaves")), None);
    let agg = aggregate_rows(&vec![first, second]);
    assert_eq!(agg[0].ingredients.len(), 1);
    assert_eq!(agg[0].ingredients[0].quantity, None);
}

#[test]
fn aggregation_groups_by_recipe_in_first_seen_order() {
    let rows = vec![row(2, "B"), row(1, "A"), row(2, "B")];
    let agg = aggregate_rows(&rows);
    assert_eq!(agg.len(), 2);
    assert_eq!(agg[0].recipe_id, Some(2));
    assert_eq!(agg[1].recipe_id, Some(1));
}

#[test]
fn store_not_found_and_empty_store() {
    let store = Store::new();
    let all = store.get_full_recipes(None).expect("no filter over empty store");
    assert!(all.is_empty());
    let missing = store.get_full_recipes(Some(42));
    assert!(matches!(missing, Err(Error::NotFound)));
}

#[test]
fn store_assigns_sequential_identifiers() {
    let mut store = Store::new();
    let a = store.add_recipe(plain_recipe("A")).expect("insert");
    let b = store.add_recipe(plain_recipe("B")).expect("insert");
    assert_eq!(a, 1);
    assert_eq!(b, 2);
}

#[test]
fn store_identifier_exhaustion_is_a_storage_error() {
    let mut store = Store::new();
    store.next_recipe_id = i32::MAX;
    let res = store.add_recipe(plain_recipe("Last"));
    assert!(matches!(res, Err(Error::Storage)));
    assert!(store.recipes.is_empty());
}

fn plain_recipe(name: &str) -> Recipe {
    Recipe {
        recipe_id: None,
        name: name.to_string(),
        description: None,
        prep_time_minutes: None,
        servings: None,
        main_photo: None,
        created_at: None,
        updated_at: None,
    }
}

#[test]
fn bulk_insert_remaps_identifiers() {
    let mut store = Store::new();
    let pid = store.add_recipe(plain_recipe("Existing")).expect("insert");
    store
        .add_ingredient(RecipeIngredient {
            recipe_ingredient_id: None,
            recipe_id: pid,
            ingredient_name: "Rice".to_string(),
            quantity: None,
            unit: None,
            created_at: None,
            updated_at: None,
        })
        .expect("insert");
    let before_recipes = store.recipes.clone();
    let before_ingredients = store.ingredients.clone();

    // The imported document claims identifiers that collide with existing rows.
    let doc_text = "[{\"recipe_id\":1,\"name\":\"Imported\",\"ingredients\":\
                    [{\"recipe_ingredient_id\":1,\"recipe_id\":1,\
                    \"ingredient_name\":\"Beans\"}]}]";
    let docs = decode(doc_text).expect("decode");
    store.insert_full_recipes(&docs).expect("bulk insert");

    // Existing rows are untouched; new rows got fresh identifiers.
    assert_eq!(&store.recipes[..before_recipes.len()], &before_recipes[..]);
    assert_eq!(&store.ingredients[..before_ingredients.len()], &before_ingredients[..]);
    assert_eq!(store.recipes.len(), 2);
    assert_eq!(store.recipes[1].recipe_id, Some(2));
    assert_eq!(store.ingredients.len(), 2);
    assert_eq!(store.ingredients[1].recipe_ingredient_id, Some(2));
    assert_eq!(store.ingredients[1].recipe_id, 2);
}

#[test]
fn bulk_insert_preserves_original_timestamps() {
    let mut store = Store::new();
    let doc_text = "[{\"name\":\"Aged\",\"created_at\":\"2007-01-01T00:00:00\",\
                    \"updated_at\":\"2008-02-02T00:00:00\"}]";
    let docs = decode(doc_text).expect("decode");
    store.insert_full_recipes(&docs).expect("bulk insert");
    assert_eq!(store.recipes[0].created_at.as_deref(), Some("2007-01-01T00:00:00"));
    assert_eq!(store.recipes[0].updated_at.as_deref(), Some("2008-02-02T00:00:00"));
}

#[test]
fn end_to_end_export_import_aggregate() {
    // Build the source store: "Pancakes" with two ingredients and one step.
    let mut source = Store::new();
    let pid = source.add_recipe(plain_recipe("Pancakes")).expect("insert");
    source
        .add_ingredient(RecipeIngredient {
            recipe_ingredient_id: None,
            recipe_id: pid,
            ingredient_name: "Flour".to_string(),
            quantity: Some("2".to_string()),
            unit: Some("cups".to_string()),
            created_at: None,
            updated_at: None,
        })
        .expect("insert");
    source
        .add_ingredient(RecipeIngredient {
            recipe_ingredient_id: None,
            recipe_id: pid,
            ingredient_name: "Egg".to_string(),
            quantity: Some("1".to_string()),
            unit: None,
            created_at: None,
            updated_at: None,
        })
        .expect("insert");
    source
        .add_step(RecipeStep {
            step_id: None,
            recipe_id: pid,
            step_number: 1,
            instructions: "Mix and cook.".to_string(),
            created_at: None,
            updated_at: None,
        })
        .expect("insert");

    let exported = source.get_full_recipes(Some(pid)).expect("aggregate");
    assert_eq!(exported.len(), 1);
    let text = encode(&exported);
    let imported = decode(&text).expect("decode");

    let mut target = Store::new();
    // Shift the target's counters so every new identifier differs.
    let occupant = target.add_recipe(plain_recipe("Occupant")).expect("insert");
    target
        .add_ingredient(RecipeIngredient {
            recipe_ingredient_id: None,
            recipe_id: occupant,
            ingredient_name: "Filler".to_string(),
            quantity: None,
            unit: None,
            created_at: None,
            updated_at: None,
        })
        .expect("insert");
    target
        .add_ingredient(RecipeIngredient {
            recipe_ingredient_id: None,
            recipe_id: occupant,
            ingredient_name: "Filler2".to_string(),
            quantity: None,
            unit: None,
            created_at: None,
            updated_at: None,
        })
        .expect("insert");
    target.insert_full_recipes(&imported).expect("bulk insert");

    let new_id = target.recipes[1].recipe_id.expect("assigned");
    assert_ne!(new_id, pid);
    let reread = target.get_full_recipes(Some(new_id)).expect("aggregate");
    assert_eq!(reread.len(), 1);
    let got = &reread[0];
    let want = &exported[0];
    assert_eq!(got.name, want.name);
    assert_eq!(got.ingredients.len(), want.ingredients.len());
    for (g, w) in got.ingredients.iter().zip(want.ingredients.iter()) {
        assert_eq!(g.ingredient_name, w.ingredient_name);
        assert_eq!(g.quantity, w.quantity);
        assert_eq!(g.unit, w.unit);
        assert_ne!(g.recipe_ingredient_id, w.recipe_ingredient_id);
    }
    assert_eq!(got.steps.len(), 1);
    assert_eq!(got.steps[0].instructions, want.steps[0].instructions);
    assert_eq!(got.steps[0].step_number, want.steps[0].step_number);
}

#[test]
fn store_aggregate_includes_notes() {
    let mut store = Store::new();
    let pid = store.add_recipe(plain_recipe("Noted")).expect("insert");
    store
        .add_note(RecipeNote {
            note_id: None,
            recipe_id: pid,
            note: "Try more salt.".to_string(),
            created_at: None,
            updated_at: None,
        })
        .expect("insert");
    store
        .add_note(RecipeNote {
            note_id: None,
            recipe_id: pid,
            note: "Second batch better.".to_string(),
            created_at: None,
            updated_at: None,
        })
        .expect("insert");
    let all = store.get_full_recipes(None).expect("aggregate");
    assert_eq!(all.len(), 1);
    assert_eq!(all[0].notes.len(), 2);
    assert_eq!(all[0].notes[0].note, "Try more salt.");
    assert_eq!(all[0].notes[1].note, "Second batch better.");
}

#[test]
fn store_update_recipe_replaces_editable_fields() {
    let mut store = Store::new();
    let pid = store.add_recipe(plain_recipe("Before")).expect("insert");
    let changed = store.update_recipe(
        Some(pid),
        "After".to_string(),
        Some("now described".to_string()),
        Some(15),
        Some(2),
    );
    assert_eq!(changed, 1);
    assert_eq!(store.recipes[0].name, "After");
    assert_eq!(store.recipes[0].description.as_deref(), Some("now described"));
    assert_eq!(store.recipes[0].prep_time_minutes, Some(15));
    assert_eq!(store.recipes[0].servings, Some(2));
    // An unknown identifier changes nothing, which is not an error.
    let missed = store.update_recipe(Some(99), "Nope".to_string(), None, None, None);
    assert_eq!(missed, 0);
    assert_eq!(store.recipes[0].name, "After");
}

#[test]
fn store_delete_recipe_does_not_cascade() {
    let mut store = Store::new();
    let pid = store.add_recipe(plain_recipe("Doomed")).expect("insert");
    store
        .add_ingredient(RecipeIngredient {
            recipe_ingredient_id: None,
            recipe_id: pid,
            ingredient_name: "Left behind".to_string(),
            quantity: None,
            unit: None,
            created_at: None,
            updated_at: None,
        })
        .expect("insert");
    store.delete_recipe(pid).expect("delete");
    // The parent row is gone; the child row stays behind, orphaned, and
    // the aggregator never shows it.
    assert!(store.recipes.is_empty());
    assert_eq!(store.ingredients.len(), 1);
    let all = store.get_full_recipes(None).expect("aggregate");
    assert!(all.is_empty());
    // Deleting again is NotFound.
    assert!(matches!(store.delete_recipe(pid), Err(Error::NotFound)));
}

#[test]
fn model_init_constructors() {
    let ing = RecipeIngredient::init(4);
    assert_eq!(ing.recipe_id, 4);
    assert_eq!(ing.recipe_ingredient_id, None);
    assert_eq!(ing.ingredient_name, "");
    let st = RecipeStep::init(4, Some(3));
    assert_eq!(st.step_number, 3);
    let st0 = RecipeStep::init(4, None);
    assert_eq!(st0.step_number, 0);
    let nt = RecipeNote::init(4);
    assert_eq!(nt.recipe_id, 4);
    assert_eq!(nt.note, "");
    let cfg = Config::default();
    assert_eq!(cfg.id, None);
    assert_eq!(cfg.gotenberg_location, None);
}

#[test]
fn store_orphan_children_are_not_aggregated() {
    // A child bound to no existing recipe never appears in an aggregate.
    let mut store = Store::new();
    store.add_recipe(plain_recipe("Solo")).expect("insert");
    store
        .add_ingredient(RecipeIngredient {
            recipe_ingredient_id: None,
            recipe_id: 99,
            ingredient_name: "Orphan".to_string(),
            quantity: None,
            unit: None,
            created_at: None,
            updated_at: None,
        })
        .expect("insert");
    let all = store.get_full_recipes(None).expect("aggregate");
    assert_eq!(all.len(), 1);
    assert!(all[0].ingredients.is_empty());
}
