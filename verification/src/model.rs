//! Data model of the recipe pipeline: the parent `Recipe`, its three child
//! types, and the nested `FullRecipe` document exchanged with the codec.
//!
//! Timestamps are carried as opaque text (the storage layer assigns them and
//! the pipeline only preserves them), so every field is a plain value and
//! each type has a mathematical view used by the contracts.

use vstd::prelude::*;

verus! {

/// Parent entity: one dish.
#[derive(Clone, Debug, PartialEq)]
pub struct Recipe {
    pub recipe_id: Option<i32>,
    pub name: String,
    pub description: Option<String>,
    pub prep_time_minutes: Option<i32>,
    pub servings: Option<i32>,
    pub main_photo: Option<String>,
    pub created_at: Option<String>,
    pub updated_at: Option<String>,
}

/// Mathematical view of a `Recipe`.
#[verifier::ext_equal]
pub ghost struct RecipeV {
    pub recipe_id: Option<i32>,
    pub name: Seq<char>,
    pub description: Option<Seq<char>>,
    pub prep_time_minutes: Option<i32>,
    pub servings: Option<i32>,
    pub main_photo: Option<Seq<char>>,
    pub created_at: Option<Seq<char>>,
    pub updated_at: Option<Seq<char>>,
}

impl View for Recipe {
    type V = RecipeV;

    open spec fn view(&self) -> RecipeV {
        RecipeV {
            recipe_id: self.recipe_id,
            name: self.name@,
            description: self.description.deep_view(),
            prep_time_minutes: self.prep_time_minutes,
            servings: self.servings,
            main_photo: self.main_photo.deep_view(),
            created_at: self.created_at.deep_view(),
            updated_at: self.updated_at.deep_view(),
        }
    }
}

impl DeepView for Recipe {
    type V = RecipeV;

    open spec fn deep_view(&self) -> RecipeV {
        self.view()
    }
}

/// Child of `Recipe`: one ingredient line.
#[derive(Clone, Debug, PartialEq)]
pub struct RecipeIngredient {
    pub recipe_ingredient_id: Option<i32>,
    pub recipe_id: i32,
    pub ingredient_name: String,
    pub quantity: Option<String>,
    pub unit: Option<String>,
    pub created_at: Option<String>,
    pub updated_at: Option<String>,
}

/// Mathematical view of a `RecipeIngredient`.
#[verifier::ext_equal]
pub ghost struct IngredientV {
    pub recipe_ingredient_id: Option<i32>,
    pub recipe_id: i32,
    pub ingredient_name: Seq<char>,
    pub quantity: Option<Seq<char>>,
    pub unit: Option<Seq<char>>,
    pub created_at: Option<Seq<char>>,
    pub updated_at: Option<Seq<char>>,
}

impl View for RecipeIngredient {
    type V = IngredientV;

    open spec fn view(&self) -> IngredientV {
        IngredientV {
            recipe_ingredient_id: self.recipe_ingredient_id,
            recipe_id: self.recipe_id,
            ingredient_name: self.ingredient_name@,
            quantity: self.quantity.deep_view(),
            unit: self.unit.deep_view(),
            created_at: self.created_at.deep_view(),
            updated_at: self.updated_at.deep_view(),
        }
    }
}

impl DeepView for RecipeIngredient {
    type V = IngredientV;

    open spec fn deep_view(&self) -> IngredientV {
        self.view()
    }
}

impl RecipeIngredient {
    /// A blank ingredient bound to a recipe, as the edit form starts from.
    pub fn init(recipe_id: i32) -> (r: RecipeIngredient)
        ensures
            r@ == (IngredientV {
                recipe_ingredient_id: None,
                recipe_id,
                ingredient_name: Seq::<char>::empty(),
                quantity: None,
                unit: None,
                created_at: None,
                updated_at: None,
            }),
    {
        RecipeIngredient {
            recipe_ingredient_id: None,
            recipe_id,
            ingredient_name: String::new(),
            quantity: None,
            unit: None,
            created_at: None,
            updated_at: None,
        }
    }
}

/// Child of `Recipe`: one preparation step, ordered by `step_number`.
#[derive(Clone, Debug, PartialEq)]
pub struct RecipeStep {
    pub step_id: Option<i32>,
    pub recipe_id: i32,
    pub step_number: i32,
    pub instructions: String,
    pub created_at: Option<String>,
    pub updated_at: Option<String>,
}

/// Mathematical view of a `RecipeStep`.
#[verifier::ext_equal]
pub ghost struct StepV {
    pub step_id: Option<i32>,
    pub recipe_id: i32,
    pub step_number: i32,
    pub instructions: Seq<char>,
    pub created_at: Option<Seq<char>>,
    pub updated_at: Option<Seq<char>>,
}

impl View for RecipeStep {
    type V = StepV;

    open spec fn view(&self) -> StepV {
        StepV {
            step_id: self.step_id,
            recipe_id: self.recipe_id,
            step_number: self.step_number,
            instructions: self.instructions@,
            created_at: self.created_at.deep_view(),
            updated_at: self.updated_at.deep_view(),
        }
    }
}

impl DeepView for RecipeStep {
    type V = StepV;

    open spec fn deep_view(&self) -> StepV {
        self.view()
    }
}

impl RecipeStep {
    /// A blank step bound to a recipe; a missing step number defaults to 0.
    pub fn init(recipe_id: i32, step_number: Option<i32>) -> (r: RecipeStep)
        ensures
            r@ == (StepV {
                step_id: None,
                recipe_id,
                step_number: (match step_number {
                    Some(n) => n,
                    None => 0,
                }),
                instructions: Seq::<char>::empty(),
                created_at: None,
                updated_at: None,
            }),
    {
        RecipeStep {
            step_id: None,
            recipe_id,
            step_number: match step_number {
                Some(n) => n,
                None => 0,
            },
            instructions: String::new(),
            created_at: None,
            updated_at: None,
        }
    }
}

/// Child of `Recipe`: one free-text note.
#[derive(Clone, Debug, PartialEq)]
pub struct RecipeNote {
    pub note_id: Option<i32>,
    pub recipe_id: i32,
    pub note: String,
    pub created_at: Option<String>,
    pub updated_at: Option<String>,
}

/// Mathematical view of a `RecipeNote`.
#[verifier::ext_equal]
pub ghost struct NoteV {
    pub note_id: Option<i32>,
    pub recipe_id: i32,
    pub note: Seq<char>,
    pub created_at: Option<Seq<char>>,
    pub updated_at: Option<Seq<char>>,
}

impl View for RecipeNote {
    type V = NoteV;

    open spec fn view(&self) -> NoteV {
        NoteV {
            note_id: self.note_id,
            recipe_id: self.recipe_id,
            note: self.note@,
            created_at: self.created_at.deep_view(),
            updated_at: self.updated_at.deep_view(),
        }
    }
}

impl DeepView for RecipeNote {
    type V = NoteV;

    open spec fn deep_view(&self) -> NoteV {
        self.view()
    }
}

impl RecipeNote {
    /// A blank note bound to a recipe.
    pub fn init(recipe_id: i32) -> (r: RecipeNote)
        ensures
            r@ == (NoteV {
                note_id: None,
                recipe_id,
                note: Seq::<char>::empty(),
                created_at: None,
                updated_at: None,
            }),
    {
        RecipeNote {
            note_id: None,
            recipe_id,
            note: String::new(),
            created_at: None,
            updated_at: None,
        }
    }
}

/// A `Recipe` together with its ordered child collections: the unit
/// exchanged with the codec and the bulk writer.
#[derive(Clone, Debug, PartialEq)]
pub struct FullRecipe {
    pub recipe_id: Option<i32>,
    pub name: String,
    pub description: Option<String>,
    pub prep_time_minutes: Option<i32>,
    pub servings: Option<i32>,
    pub main_photo: Option<String>,
    pub created_at: Option<String>,
    pub updated_at: Option<String>,
    pub ingredients: Vec<RecipeIngredient>,
    pub steps: Vec<RecipeStep>,
    pub notes: Vec<RecipeNote>,
}

/// Mathematical view of a `FullRecipe`.
#[verifier::ext_equal]
pub ghost struct FullRecipeV {
    pub recipe_id: Option<i32>,
    pub name: Seq<char>,
    pub description: Option<Seq<char>>,
    pub prep_time_minutes: Option<i32>,
    pub servings: Option<i32>,
    pub main_photo: Option<Seq<char>>,
    pub created_at: Option<Seq<char>>,
    pub updated_at: Option<Seq<char>>,
    pub ingredients: Seq<IngredientV>,
    pub steps: Seq<StepV>,
    pub notes: Seq<NoteV>,
}

impl View for FullRecipe {
    type V = FullRecipeV;

    open spec fn view(&self) -> FullRecipeV {
        FullRecipeV {
            recipe_id: self.recipe_id,
            name: self.name@,
            description: self.description.deep_view(),
            prep_time_minutes: self.prep_time_minutes,
            servings: self.servings,
            main_photo: self.main_photo.deep_view(),
            created_at: self.created_at.deep_view(),
            updated_at: self.updated_at.deep_view(),
            ingredients: self.ingredients.deep_view(),
            steps: self.steps.deep_view(),
            notes: self.notes.deep_view(),
        }
    }
}

impl DeepView for FullRecipe {
    type V = FullRecipeV;

    open spec fn deep_view(&self) -> FullRecipeV {
        self.view()
    }
}

/// Application configuration row: where the document-conversion service
/// listens.
#[derive(Clone, Debug, PartialEq)]
pub struct Config {
    pub id: Option<i32>,
    pub gotenberg_location: Option<String>,
}

/// Mathematical view of a `Config`.
#[verifier::ext_equal]
pub ghost struct ConfigV {
    pub id: Option<i32>,
    pub gotenberg_location: Option<Seq<char>>,
}

impl View for Config {
    type V = ConfigV;

    open spec fn view(&self) -> ConfigV {
        ConfigV { id: self.id, gotenberg_location: self.gotenberg_location.deep_view() }
    }
}

impl Default for Config {
    fn default() -> (r: Config)
        ensures
            r@ == (ConfigV { id: None, gotenberg_location: None }),
    {
        Config { id: None, gotenberg_location: None }
    }
}

} // verus!
