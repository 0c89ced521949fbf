//! Document codec: a lossless, bidirectional mapping between a sequence of
//! `FullRecipe` documents and interchange text.
//!
//! Encoding always writes every key, with an explicit null for absent
//! optional fields.  Decoding accepts keys in any order, treats a missing
//! or null optional field as absent, defaults a missing child collection to
//! empty, and rejects text whose required fields (a recipe's `name`, a
//! child's `recipe_id`, and so on) are missing or of the wrong type.
//! `lemma_round_trip` states the round-trip law.

use vstd::prelude::*;

use crate::json::{members_view, obj_get, parse_doc, print_json, seq_view, Json, JsonV};
use crate::model::{
    FullRecipe, FullRecipeV, IngredientV, NoteV, RecipeIngredient, RecipeNote, RecipeStep, StepV,
};

verus! {

broadcast use vstd::seq::group_seq_axioms, vstd::std_specs::vec::group_vec_axioms;

/// Why a decode failed, with a human-readable cause.
#[derive(Debug)]
pub struct DecodeError {
    pub message: String,
}

// ---------------------------------------------------------------------------
// The canonical keys of the interchange objects
// ---------------------------------------------------------------------------

pub open spec fn k_recipe_id() -> Seq<char> {
    seq!['r', 'e', 'c', 'i', 'p', 'e', '_', 'i', 'd']
}

pub open spec fn k_name() -> Seq<char> {
    seq!['n', 'a', 'm', 'e']
}

pub open spec fn k_description() -> Seq<char> {
    seq!['d', 'e', 's', 'c', 'r', 'i', 'p', 't', 'i', 'o', 'n']
}

pub open spec fn k_prep_time_minutes() -> Seq<char> {
    seq!['p', 'r', 'e', 'p', '_', 't', 'i', 'm', 'e', '_', 'm', 'i', 'n', 'u', 't', 'e', 's']
}

pub open spec fn k_servings() -> Seq<char> {
    seq!['s', 'e', 'r', 'v', 'i', 'n', 'g', 's']
}

pub open spec fn k_main_photo() -> Seq<char> {
    seq!['m', 'a', 'i', 'n', '_', 'p', 'h', 'o', 't', 'o']
}

pub open spec fn k_created_at() -> Seq<char> {
    seq!['c', 'r', 'e', 'a', 't', 'e', 'd', '_', 'a', 't']
}

pub open spec fn k_updated_at() -> Seq<char> {
    seq!['u', 'p', 'd', 'a', 't', 'e', 'd', '_', 'a', 't']
}

pub open spec fn k_ingredients() -> Seq<char> {
    seq!['i', 'n', 'g', 'r', 'e', 'd', 'i', 'e', 'n', 't', 's']
}

pub open spec fn k_steps() -> Seq<char> {
    seq!['s', 't', 'e', 'p', 's']
}

pub open spec fn k_notes() -> Seq<char> {
    seq!['n', 'o', 't', 'e', 's']
}

pub open spec fn k_recipe_ingredient_id() -> Seq<char> {
    seq![
        'r', 'e', 'c', 'i', 'p', 'e', '_', 'i', 'n', 'g', 'r', 'e', 'd', 'i', 'e', 'n', 't', '_',
        'i', 'd',
    ]
}

pub open spec fn k_ingredient_name() -> Seq<char> {
    seq!['i', 'n', 'g', 'r', 'e', 'd', 'i', 'e', 'n', 't', '_', 'n', 'a', 'm', 'e']
}

pub open spec fn k_quantity() -> Seq<char> {
    seq!['q', 'u', 'a', 'n', 't', 'i', 't', 'y']
}

pub open spec fn k_unit() -> Seq<char> {
    seq!['u', 'n', 'i', 't']
}

pub open spec fn k_step_id() -> Seq<char> {
    seq!['s', 't', 'e', 'p', '_', 'i', 'd']
}

pub open spec fn k_step_number() -> Seq<char> {
    seq!['s', 't', 'e', 'p', '_', 'n', 'u', 'm', 'b', 'e', 'r']
}

pub open spec fn k_instructions() -> Seq<char> {
    seq!['i', 'n', 's', 't', 'r', 'u', 'c', 't', 'i', 'o', 'n', 's']
}

pub open spec fn k_note_id() -> Seq<char> {
    seq!['n', 'o', 't', 'e', '_', 'i', 'd']
}

pub open spec fn k_note() -> Seq<char> {
    seq!['n', 'o', 't', 'e']
}

// ---------------------------------------------------------------------------
// Building the document tree (encode direction)
// ---------------------------------------------------------------------------

/// An optional string: the value itself, or an explicit null.
pub open spec fn json_of_opt_str(o: Option<Seq<char>>) -> JsonV {
    match o {
        Some(s) => JsonV::Str(s),
        None => JsonV::Null,
    }
}

/// An optional 32-bit integer: the value itself, or an explicit null.
pub open spec fn json_of_opt_i32(o: Option<i32>) -> JsonV {
    match o {
        Some(i) => JsonV::Int(i as i64),
        None => JsonV::Null,
    }
}

pub open spec fn json_of_ingredient(x: IngredientV) -> JsonV {
    JsonV::Obj(
        seq![
            (k_recipe_ingredient_id(), json_of_opt_i32(x.recipe_ingredient_id)),
            (k_recipe_id(), JsonV::Int(x.recipe_id as i64)),
            (k_ingredient_name(), JsonV::Str(x.ingredient_name)),
            (k_quantity(), json_of_opt_str(x.quantity)),
            (k_unit(), json_of_opt_str(x.unit)),
            (k_created_at(), json_of_opt_str(x.created_at)),
            (k_updated_at(), json_of_opt_str(x.updated_at)),
        ],
    )
}

pub open spec fn json_of_step(x: StepV) -> JsonV {
    JsonV::Obj(
        seq![
            (k_step_id(), json_of_opt_i32(x.step_id)),
            (k_recipe_id(), JsonV::Int(x.recipe_id as i64)),
            (k_step_number(), JsonV::Int(x.step_number as i64)),
            (k_instructions(), JsonV::Str(x.instructions)),
            (k_created_at(), json_of_opt_str(x.created_at)),
            (k_updated_at(), json_of_opt_str(x.updated_at)),
        ],
    )
}

pub open spec fn json_of_note(x: NoteV) -> JsonV {
    JsonV::Obj(
        seq![
            (k_note_id(), json_of_opt_i32(x.note_id)),
            (k_recipe_id(), JsonV::Int(x.recipe_id as i64)),
            (k_note(), JsonV::Str(x.note)),
            (k_created_at(), json_of_opt_str(x.created_at)),
            (k_updated_at(), json_of_opt_str(x.updated_at)),
        ],
    )
}

pub open spec fn json_of_recipe(r: FullRecipeV) -> JsonV {
    JsonV::Obj(
        seq![
            (k_recipe_id(), json_of_opt_i32(r.recipe_id)),
            (k_name(), JsonV::Str(r.name)),
            (k_description(), json_of_opt_str(r.description)),
            (k_prep_time_minutes(), json_of_opt_i32(r.prep_time_minutes)),
            (k_servings(), json_of_opt_i32(r.servings)),
            (k_main_photo(), json_of_opt_str(r.main_photo)),
            (k_created_at(), json_of_opt_str(r.created_at)),
            (k_updated_at(), json_of_opt_str(r.updated_at)),
            (
                k_ingredients(),
                JsonV::Arr(Seq::new(r.ingredients.len(), |i: int| json_of_ingredient(r.ingredients[i]))),
            ),
            (k_steps(), JsonV::Arr(Seq::new(r.steps.len(), |i: int| json_of_step(r.steps[i])))),
            (k_notes(), JsonV::Arr(Seq::new(r.notes.len(), |i: int| json_of_note(r.notes[i])))),
        ],
    )
}

/// The whole export document: an array with one object per recipe.
pub open spec fn json_of_doc(rs: Seq<FullRecipeV>) -> JsonV {
    JsonV::Arr(Seq::new(rs.len(), |i: int| json_of_recipe(rs[i])))
}

/// The canonical interchange text of a recipe collection.
pub open spec fn enc_doc(rs: Seq<FullRecipeV>) -> Seq<char> {
    print_json(json_of_doc(rs))
}

// ---------------------------------------------------------------------------
// Reading the document tree (decode direction)
// ---------------------------------------------------------------------------

/// An optional string field: `None` is a decode failure, `Some(None)` an
/// absent field (missing key or null), `Some(Some(s))` a present string.
pub open spec fn dec_opt_str(m: Seq<(Seq<char>, JsonV)>, k: Seq<char>) -> Option<
    Option<Seq<char>>,
> {
    match obj_get(m, k) {
        None => Some(None),
        Some(JsonV::Null) => Some(None),
        Some(JsonV::Str(s)) => Some(Some(s)),
        Some(_) => None,
    }
}

/// An optional 32-bit integer field, absent when missing or null, rejected
/// when out of range or of the wrong type.
pub open spec fn dec_opt_i32(m: Seq<(Seq<char>, JsonV)>, k: Seq<char>) -> Option<Option<i32>> {
    match obj_get(m, k) {
        None => Some(None),
        Some(JsonV::Null) => Some(None),
        Some(JsonV::Int(i)) => {
            if i32::MIN <= i <= i32::MAX {
                Some(Some(i as i32))
            } else {
                None
            }
        },
        Some(_) => None,
    }
}

/// A required string field; missing, null, or non-string is a failure.
pub open spec fn dec_req_str(m: Seq<(Seq<char>, JsonV)>, k: Seq<char>) -> Option<Seq<char>> {
    match obj_get(m, k) {
        Some(JsonV::Str(s)) => Some(s),
        _ => None,
    }
}

/// A required 32-bit integer field; missing, null, out of range, or of the
/// wrong type is a failure.
pub open spec fn dec_req_i32(m: Seq<(Seq<char>, JsonV)>, k: Seq<char>) -> Option<i32> {
    match obj_get(m, k) {
        Some(JsonV::Int(i)) => {
            if i32::MIN <= i <= i32::MAX {
                Some(i as i32)
            } else {
                None
            }
        },
        _ => None,
    }
}

pub open spec fn dec_ingredient(j: JsonV) -> Option<IngredientV> {
    match j {
        JsonV::Obj(m) => {
            match (
                dec_opt_i32(m, k_recipe_ingredient_id()),
                dec_req_i32(m, k_recipe_id()),
                dec_req_str(m, k_ingredient_name()),
                dec_opt_str(m, k_quantity()),
                dec_opt_str(m, k_unit()),
                dec_opt_str(m, k_created_at()),
                dec_opt_str(m, k_updated_at()),
            ) {
                (
                    Some(recipe_ingredient_id),
                    Some(recipe_id),
                    Some(ingredient_name),
                    Some(quantity),
                    Some(unit),
                    Some(created_at),
                    Some(updated_at),
                ) => Some(
                    IngredientV {
                        recipe_ingredient_id,
                        recipe_id,
                        ingredient_name,
                        quantity,
                        unit,
                        created_at,
                        updated_at,
                    },
                ),
                _ => None,
            }
        },
        _ => None,
    }
}

pub open spec fn dec_step(j: JsonV) -> Option<StepV> {
    match j {
        JsonV::Obj(m) => {
            match (
                dec_opt_i32(m, k_step_id()),
                dec_req_i32(m, k_recipe_id()),
                dec_req_i32(m, k_step_number()),
                dec_req_str(m, k_instructions()),
                dec_opt_str(m, k_created_at()),
                dec_opt_str(m, k_updated_at()),
            ) {
                (
                    Some(step_id),
                    Some(recipe_id),
                    Some(step_number),
                    Some(instructions),
                    Some(created_at),
                    Some(updated_at),
                ) => Some(
                    StepV { step_id, recipe_id, step_number, instructions, created_at, updated_at },
                ),
                _ => None,
            }
        },
        _ => None,
    }
}

pub open spec fn dec_note(j: JsonV) -> Option<NoteV> {
    match j {
        JsonV::Obj(m) => {
            match (
                dec_opt_i32(m, k_note_id()),
                dec_req_i32(m, k_recipe_id()),
                dec_req_str(m, k_note()),
                dec_opt_str(m, k_created_at()),
                dec_opt_str(m, k_updated_at()),
            ) {
                (Some(note_id), Some(recipe_id), Some(note), Some(created_at), Some(updated_at)) => Some(
                    NoteV { note_id, recipe_id, note, created_at, updated_at },
                ),
                _ => None,
            }
        },
        _ => None,
    }
}

pub open spec fn dec_ingredients(l: Seq<JsonV>) -> Option<Seq<IngredientV>>
    decreases l.len(),
{
    if l.len() == 0 {
        Some(Seq::empty())
    } else {
        match (dec_ingredient(l[0]), dec_ingredients(l.drop_first())) {
            (Some(x), Some(rest)) => Some(seq![x] + rest),
            _ => None,
        }
    }
}

pub open spec fn dec_steps(l: Seq<JsonV>) -> Option<Seq<StepV>>
    decreases l.len(),
{
    if l.len() == 0 {
        Some(Seq::empty())
    } else {
        match (dec_step(l[0]), dec_steps(l.drop_first())) {
            (Some(x), Some(rest)) => Some(seq![x] + rest),
            _ => None,
        }
    }
}

pub open spec fn dec_notes(l: Seq<JsonV>) -> Option<Seq<NoteV>>
    decreases l.len(),
{
    if l.len() == 0 {
        Some(Seq::empty())
    } else {
        match (dec_note(l[0]), dec_notes(l.drop_first())) {
            (Some(x), Some(rest)) => Some(seq![x] + rest),
            _ => None,
        }
    }
}

/// A child collection: a missing key or a null defaults to the empty
/// collection; anything but an array of objects is a failure.
pub open spec fn dec_ingredients_field(m: Seq<(Seq<char>, JsonV)>) -> Option<Seq<IngredientV>> {
    match obj_get(m, k_ingredients()) {
        None => Some(Seq::empty()),
        Some(JsonV::Null) => Some(Seq::empty()),
        Some(JsonV::Arr(l)) => dec_ingredients(l),
        Some(_) => None,
    }
}

pub open spec fn dec_steps_field(m: Seq<(Seq<char>, JsonV)>) -> Option<Seq<StepV>> {
    match obj_get(m, k_steps()) {
        None => Some(Seq::empty()),
        Some(JsonV::Null) => Some(Seq::empty()),
        Some(JsonV::Arr(l)) => dec_steps(l),
        Some(_) => None,
    }
}

pub open spec fn dec_notes_field(m: Seq<(Seq<char>, JsonV)>) -> Option<Seq<NoteV>> {
    match obj_get(m, k_notes()) {
        None => Some(Seq::empty()),
        Some(JsonV::Null) => Some(Seq::empty()),
        Some(JsonV::Arr(l)) => dec_notes(l),
        Some(_) => None,
    }
}

pub open spec fn dec_recipe(j: JsonV) -> Option<FullRecipeV> {
    match j {
        JsonV::Obj(m) => {
            match (
                dec_opt_i32(m, k_recipe_id()),
                dec_req_str(m, k_name()),
                dec_opt_str(m, k_description()),
                dec_opt_i32(m, k_prep_time_minutes()),
                dec_opt_i32(m, k_servings()),
                dec_opt_str(m, k_main_photo()),
                dec_opt_str(m, k_created_at()),
                dec_opt_str(m, k_updated_at()),
                dec_ingredients_field(m),
                dec_steps_field(m),
                dec_notes_field(m),
            ) {
                (
                    Some(recipe_id),
                    Some(name),
                    Some(description),
                    Some(prep_time_minutes),
                    Some(servings),
                    Some(main_photo),
                    Some(created_at),
                    Some(updated_at),
                    Some(ingredients),
                    Some(steps),
                    Some(notes),
                ) => Some(
                    FullRecipeV {
                        recipe_id,
                        name,
                        description,
                        prep_time_minutes,
                        servings,
                        main_photo,
                        created_at,
                        updated_at,
                        ingredients,
                        steps,
                        notes,
                    },
                ),
                _ => None,
            }
        },
        _ => None,
    }
}

pub open spec fn dec_recipes(l: Seq<JsonV>) -> Option<Seq<FullRecipeV>>
    decreases l.len(),
{
    if l.len() == 0 {
        Some(Seq::empty())
    } else {
        match (dec_recipe(l[0]), dec_recipes(l.drop_first())) {
            (Some(x), Some(rest)) => Some(seq![x] + rest),
            _ => None,
        }
    }
}

/// What decoding interchange text yields: `None` is a decode failure.
pub open spec fn dec_doc(s: Seq<char>) -> Option<Seq<FullRecipeV>> {
    match parse_doc(s) {
        Some(JsonV::Arr(l)) => dec_recipes(l),
        _ => None,
    }
}

// ---------------------------------------------------------------------------
// Round trip: reading back an encoded document yields the original
// ---------------------------------------------------------------------------

proof fn lemma_dec_enc_ingredient(x: IngredientV)
    ensures
        dec_ingredient(json_of_ingredient(x)) == Some(x),
{
    reveal_with_fuel(obj_get, 9);
    let m = json_of_ingredient(x)->Obj_0;
    assert(obj_get(m, k_recipe_ingredient_id()) == Some(json_of_opt_i32(x.recipe_ingredient_id)));
    assert(obj_get(m, k_recipe_id()) == Some(JsonV::Int(x.recipe_id as i64)));
    assert(obj_get(m, k_ingredient_name()) == Some(JsonV::Str(x.ingredient_name)));
    assert(obj_get(m, k_quantity()) == Some(json_of_opt_str(x.quantity)));
    assert(obj_get(m, k_unit()) == Some(json_of_opt_str(x.unit)));
    assert(obj_get(m, k_created_at()) == Some(json_of_opt_str(x.created_at)));
    assert(obj_get(m, k_updated_at()) == Some(json_of_opt_str(x.updated_at)));
    assert(dec_ingredient(json_of_ingredient(x)) =~= Some(x));
}

proof fn lemma_dec_enc_step(x: StepV)
    ensures
        dec_step(json_of_step(x)) == Some(x),
{
    reveal_with_fuel(obj_get, 8);
    let m = json_of_step(x)->Obj_0;
    assert(obj_get(m, k_step_id()) == Some(json_of_opt_i32(x.step_id)));
    assert(obj_get(m, k_recipe_id()) == Some(JsonV::Int(x.recipe_id as i64)));
    assert(obj_get(m, k_step_number()) == Some(JsonV::Int(x.step_number as i64)));
    assert(obj_get(m, k_instructions()) == Some(JsonV::Str(x.instructions)));
    assert(obj_get(m, k_created_at()) == Some(json_of_opt_str(x.created_at)));
    assert(obj_get(m, k_updated_at()) == Some(json_of_opt_str(x.updated_at)));
    assert(dec_step(json_of_step(x)) =~= Some(x));
}

proof fn lemma_dec_enc_note(x: NoteV)
    ensures
        dec_note(json_of_note(x)) == Some(x),
{
    reveal_with_fuel(obj_get, 7);
    let m = json_of_note(x)->Obj_0;
    assert(obj_get(m, k_note_id()) == Some(json_of_opt_i32(x.note_id)));
    assert(obj_get(m, k_recipe_id()) == Some(JsonV::Int(x.recipe_id as i64)));
    assert(k_note_id().len() != k_note().len());
    assert(k_recipe_id().len() != k_note().len());
    assert(m.drop_first() =~= seq![
        (k_recipe_id(), JsonV::Int(x.recipe_id as i64)),
        (k_note(), JsonV::Str(x.note)),
        (k_created_at(), json_of_opt_str(x.created_at)),
        (k_updated_at(), json_of_opt_str(x.updated_at)),
    ]);
    assert(m.drop_first().drop_first() =~= seq![
        (k_note(), JsonV::Str(x.note)),
        (k_created_at(), json_of_opt_str(x.created_at)),
        (k_updated_at(), json_of_opt_str(x.updated_at)),
    ]);
    assert(obj_get(m, k_note()) == Some(JsonV::Str(x.note)));
    assert(obj_get(m, k_created_at()) == Some(json_of_opt_str(x.created_at)));
    assert(obj_get(m, k_updated_at()) == Some(json_of_opt_str(x.updated_at)));
    assert(dec_note(json_of_note(x)) =~= Some(x));
}

proof fn lemma_dec_enc_ingredients(l: Seq<IngredientV>)
    ensures
        dec_ingredients(Seq::new(l.len(), |i: int| json_of_ingredient(l[i]))) == Some(l),
    decreases l.len(),
{
    let js = Seq::new(l.len(), |i: int| json_of_ingredient(l[i]));
    if l.len() == 0 {
        assert(l =~= Seq::<IngredientV>::empty());
    } else {
        lemma_dec_enc_ingredient(l[0]);
        lemma_dec_enc_ingredients(l.drop_first());
        assert(js.drop_first() =~= Seq::new(
            l.drop_first().len(),
            |i: int| json_of_ingredient(l.drop_first()[i]),
        ));
        assert(seq![l[0]] + l.drop_first() =~= l);
    }
}

proof fn lemma_dec_enc_steps(l: Seq<StepV>)
    ensures
        dec_steps(Seq::new(l.len(), |i: int| json_of_step(l[i]))) == Some(l),
    decreases l.len(),
{
    let js = Seq::new(l.len(), |i: int| json_of_step(l[i]));
    if l.len() == 0 {
        assert(l =~= Seq::<StepV>::empty());
    } else {
        lemma_dec_enc_step(l[0]);
        lemma_dec_enc_steps(l.drop_first());
        assert(js.drop_first() =~= Seq::new(
            l.drop_first().len(),
            |i: int| json_of_step(l.drop_first()[i]),
        ));
        assert(seq![l[0]] + l.drop_first() =~= l);
    }
}

proof fn lemma_dec_enc_notes(l: Seq<NoteV>)
    ensures
        dec_notes(Seq::new(l.len(), |i: int| json_of_note(l[i]))) == Some(l),
    decreases l.len(),
{
    let js = Seq::new(l.len(), |i: int| json_of_note(l[i]));
    if l.len() == 0 {
        assert(l =~= Seq::<NoteV>::empty());
    } else {
        lemma_dec_enc_note(l[0]);
        lemma_dec_enc_notes(l.drop_first());
        assert(js.drop_first() =~= Seq::new(
            l.drop_first().len(),
            |i: int| json_of_note(l.drop_first()[i]),
        ));
        assert(seq![l[0]] + l.drop_first() =~= l);
    }
}

proof fn lemma_dec_enc_recipe(r: FullRecipeV)
    ensures
        dec_recipe(json_of_recipe(r)) == Some(r),
{
    reveal_with_fuel(obj_get, 13);
    let m = json_of_recipe(r)->Obj_0;
    assert(obj_get(m, k_recipe_id()) == Some(json_of_opt_i32(r.recipe_id)));
    assert(obj_get(m, k_name()) == Some(JsonV::Str(r.name)));
    assert(obj_get(m, k_description()) == Some(json_of_opt_str(r.description)));
    assert(obj_get(m, k_prep_time_minutes()) == Some(json_of_opt_i32(r.prep_time_minutes)));
    assert(obj_get(m, k_servings()) == Some(json_of_opt_i32(r.servings)));
    assert(obj_get(m, k_main_photo()) == Some(json_of_opt_str(r.main_photo)));
    assert(obj_get(m, k_created_at()) == Some(json_of_opt_str(r.created_at)));
    assert(obj_get(m, k_updated_at()) == Some(json_of_opt_str(r.updated_at)));
    assert(obj_get(m, k_ingredients()) == Some(
        JsonV::Arr(Seq::new(r.ingredients.len(), |i: int| json_of_ingredient(r.ingredients[i]))),
    ));
    assert(obj_get(m, k_steps()) == Some(
        JsonV::Arr(Seq::new(r.steps.len(), |i: int| json_of_step(r.steps[i]))),
    ));
    assert(obj_get(m, k_notes()) == Some(
        JsonV::Arr(Seq::new(r.notes.len(), |i: int| json_of_note(r.notes[i]))),
    ));
    lemma_dec_enc_ingredients(r.ingredients);
    lemma_dec_enc_steps(r.steps);
    lemma_dec_enc_notes(r.notes);
    assert(dec_recipe(json_of_recipe(r)) =~= Some(r));
}

proof fn lemma_dec_enc_recipes(rs: Seq<FullRecipeV>)
    ensures
        dec_recipes(Seq::new(rs.len(), |i: int| json_of_recipe(rs[i]))) == Some(rs),
    decreases rs.len(),
{
    let js = Seq::new(rs.len(), |i: int| json_of_recipe(rs[i]));
    if rs.len() == 0 {
        assert(rs =~= Seq::<FullRecipeV>::empty());
    } else {
        lemma_dec_enc_recipe(rs[0]);
        lemma_dec_enc_recipes(rs.drop_first());
        assert(js.drop_first() =~= Seq::new(
            rs.drop_first().len(),
            |i: int| json_of_recipe(rs.drop_first()[i]),
        ));
        assert(seq![rs[0]] + rs.drop_first() =~= rs);
    }
}

/// The round-trip law: decoding the text encoded from any recipe
/// collection yields that collection, field for field, including the exact
/// absent or present state of every optional field.
pub proof fn lemma_round_trip(rs: Seq<FullRecipeV>)
    ensures
        dec_doc(enc_doc(rs)) == Some(rs),
{
    crate::json::lemma_parse_print_doc(json_of_doc(rs));
    lemma_dec_enc_recipes(rs);
}

// ---------------------------------------------------------------------------
// Executable encoding
// ---------------------------------------------------------------------------

fn opt_str_json(o: &Option<String>) -> (r: Json)
    ensures
        r@ == json_of_opt_str(o.deep_view()),
{
    match o {
        Some(s) => Json::Str(s.clone()),
        None => Json::Null,
    }
}

fn opt_i32_json(o: &Option<i32>) -> (r: Json)
    ensures
        r@ == json_of_opt_i32(*o),
{
    match o {
        Some(i) => Json::Int(*i as i64),
        None => Json::Null,
    }
}

fn ingredient_json(x: &RecipeIngredient) -> (r: Json)
    ensures
        r@ == json_of_ingredient(x@),
{
    let mut m: Vec<(String, Json)> = Vec::new();
    m.push((String::from_str("recipe_ingredient_id"), opt_i32_json(&x.recipe_ingredient_id)));
    m.push((String::from_str("recipe_id"), Json::Int(x.recipe_id as i64)));
    m.push((String::from_str("ingredient_name"), Json::Str(x.ingredient_name.clone())));
    m.push((String::from_str("quantity"), opt_str_json(&x.quantity)));
    m.push((String::from_str("unit"), opt_str_json(&x.unit)));
    m.push((String::from_str("created_at"), opt_str_json(&x.created_at)));
    m.push((String::from_str("updated_at"), opt_str_json(&x.updated_at)));
    proof {
        reveal_strlit("recipe_ingredient_id");
        reveal_strlit("recipe_id");
        reveal_strlit("ingredient_name");
        reveal_strlit("quantity");
        reveal_strlit("unit");
        reveal_strlit("created_at");
        reveal_strlit("updated_at");
        assert(members_view(m@) =~~= json_of_ingredient(x@)->Obj_0);
    }
    Json::Obj(m)
}

fn step_json(x: &RecipeStep) -> (r: Json)
    ensures
        r@ == json_of_step(x@),
{
    let mut m: Vec<(String, Json)> = Vec::new();
    m.push((String::from_str("step_id"), opt_i32_json(&x.step_id)));
    m.push((String::from_str("recipe_id"), Json::Int(x.recipe_id as i64)));
    m.push((String::from_str("step_number"), Json::Int(x.step_number as i64)));
    m.push((String::from_str("instructions"), Json::Str(x.instructions.clone())));
    m.push((String::from_str("created_at"), opt_str_json(&x.created_at)));
    m.push((String::from_str("updated_at"), opt_str_json(&x.updated_at)));
    proof {
        reveal_strlit("step_id");
        reveal_strlit("recipe_id");
        reveal_strlit("step_number");
        reveal_strlit("instructions");
        reveal_strlit("created_at");
        reveal_strlit("updated_at");
        assert(members_view(m@) =~~= json_of_step(x@)->Obj_0);
    }
    Json::Obj(m)
}

fn note_json(x: &RecipeNote) -> (r: Json)
    ensures
        r@ == json_of_note(x@),
{
    let mut m: Vec<(String, Json)> = Vec::new();
    m.push((String::from_str("note_id"), opt_i32_json(&x.note_id)));
    m.push((String::from_str("recipe_id"), Json::Int(x.recipe_id as i64)));
    m.push((String::from_str("note"), Json::Str(x.note.clone())));
    m.push((String::from_str("created_at"), opt_str_json(&x.created_at)));
    m.push((String::from_str("updated_at"), opt_str_json(&x.updated_at)));
    proof {
        reveal_strlit("note_id");
        reveal_strlit("recipe_id");
        reveal_strlit("note");
        reveal_strlit("created_at");
        reveal_strlit("updated_at");
        assert(members_view(m@) =~~= json_of_note(x@)->Obj_0);
    }
    Json::Obj(m)
}

fn recipe_json(r: &FullRecipe) -> (out: Json)
    ensures
        out@ == json_of_recipe(r@),
{
    let mut ingredients: Vec<Json> = Vec::new();
    let mut k: usize = 0;
    while k < r.ingredients.len()
        invariant
            k <= r.ingredients@.len(),
            ingredients@.len() == k,
            forall|i: int|
                0 <= i < k as int ==> (#[trigger] ingredients@[i])@ == json_of_ingredient(
                    r.ingredients.deep_view()[i],
                ),
        decreases r.ingredients@.len() - k,
    {
        ingredients.push(ingredient_json(&r.ingredients[k]));
        proof {
            assert(r.ingredients@[k as int]@ == r.ingredients.deep_view()[k as int]);
        }
        k = k + 1;
    }
    proof {
        assert(seq_view(ingredients@) =~~= Seq::new(
            r.ingredients.deep_view().len(),
            |i: int| json_of_ingredient(r.ingredients.deep_view()[i]),
        ));
    }
    let mut steps: Vec<Json> = Vec::new();
    let mut k: usize = 0;
    while k < r.steps.len()
        invariant
            k <= r.steps@.len(),
            steps@.len() == k,
            forall|i: int|
                0 <= i < k as int ==> (#[trigger] steps@[i])@ == json_of_step(
                    r.steps.deep_view()[i],
                ),
        decreases r.steps@.len() - k,
    {
        steps.push(step_json(&r.steps[k]));
        proof {
            assert(r.steps@[k as int]@ == r.steps.deep_view()[k as int]);
        }
        k = k + 1;
    }
    proof {
        assert(seq_view(steps@) =~~= Seq::new(
            r.steps.deep_view().len(),
            |i: int| json_of_step(r.steps.deep_view()[i]),
        ));
    }
    let mut notes: Vec<Json> = Vec::new();
    let mut k: usize = 0;
    while k < r.notes.len()
        invariant
            k <= r.notes@.len(),
            notes@.len() == k,
            forall|i: int|
                0 <= i < k as int ==> (#[trigger] notes@[i])@ == json_of_note(
                    r.notes.deep_view()[i],
                ),
        decreases r.notes@.len() - k,
    {
        notes.push(note_json(&r.notes[k]));
        proof {
            assert(r.notes@[k as int]@ == r.notes.deep_view()[k as int]);
        }
        k = k + 1;
    }
    proof {
        assert(seq_view(notes@) =~~= Seq::new(
            r.notes.deep_view().len(),
            |i: int| json_of_note(r.notes.deep_view()[i]),
        ));
    }
    let mut m: Vec<(String, Json)> = Vec::new();
    m.push((String::from_str("recipe_id"), opt_i32_json(&r.recipe_id)));
    m.push((String::from_str("name"), Json::Str(r.name.clone())));
    m.push((String::from_str("description"), opt_str_json(&r.description)));
    m.push((String::from_str("prep_time_minutes"), opt_i32_json(&r.prep_time_minutes)));
    m.push((String::from_str("servings"), opt_i32_json(&r.servings)));
    m.push((String::from_str("main_photo"), opt_str_json(&r.main_photo)));
    m.push((String::from_str("created_at"), opt_str_json(&r.created_at)));
    m.push((String::from_str("updated_at"), opt_str_json(&r.updated_at)));
    m.push((String::from_str("ingredients"), Json::Arr(ingredients)));
    m.push((String::from_str("steps"), Json::Arr(steps)));
    m.push((String::from_str("notes"), Json::Arr(notes)));
    proof {
        reveal_strlit("recipe_id");
        reveal_strlit("name");
        reveal_strlit("description");
        reveal_strlit("prep_time_minutes");
        reveal_strlit("servings");
        reveal_strlit("main_photo");
        reveal_strlit("created_at");
        reveal_strlit("updated_at");
        reveal_strlit("ingredients");
        reveal_strlit("steps");
        reveal_strlit("notes");
        assert(members_view(m@) =~~= json_of_recipe(r@)->Obj_0);
    }
    Json::Obj(m)
}

/// Encodes a recipe collection as interchange text.  Encoding never fails
/// on in-memory documents.
pub fn encode(recipes: &Vec<FullRecipe>) -> (r: String)
    ensures
        r@ == enc_doc(recipes.deep_view()),
{
    let mut items: Vec<Json> = Vec::new();
    let mut k: usize = 0;
    while k < recipes.len()
        invariant
            k <= recipes@.len(),
            items@.len() == k,
            forall|i: int|
                0 <= i < k as int ==> (#[trigger] items@[i])@ == json_of_recipe(
                    recipes.deep_view()[i],
                ),
        decreases recipes@.len() - k,
    {
        items.push(recipe_json(&recipes[k]));
        proof {
            assert(recipes@[k as int]@ == recipes.deep_view()[k as int]);
        }
        k = k + 1;
    }
    proof {
        assert(seq_view(items@) =~~= Seq::new(
            recipes.deep_view().len(),
            |i: int| json_of_recipe(recipes.deep_view()[i]),
        ));
    }
    let doc = Json::Arr(items);
    proof {
        assert(doc@ =~~= json_of_doc(recipes.deep_view()));
    }
    crate::json::to_text(&doc)
}

// ---------------------------------------------------------------------------
// Executable decoding
// ---------------------------------------------------------------------------

fn bad_field(key: &String) -> (r: DecodeError) {
    DecodeError { message: String::from_str("invalid or missing field: ").concat(key.as_str()) }
}

/// The first member with the given key, if any.
fn find_key<'a>(m: &'a Vec<(String, Json)>, key: &String) -> (r: Option<&'a Json>)
    ensures
        (match r {
            Some(j) => obj_get(members_view(m@), key@) == Some(j@),
            None => obj_get(members_view(m@), key@) is None,
        }),
{
    let ghost mv = members_view(m@);
    proof {
        assert(mv.skip(0) =~= mv);
    }
    let mut k: usize = 0;
    while k < m.len()
        invariant
            k <= m@.len(),
            mv == members_view(m@),
            obj_get(mv, key@) == obj_get(mv.skip(k as int), key@),
        decreases m@.len() - k,
    {
        let p = &m[k];
        proof {
            assert(mv.skip(k as int)[0] == mv[k as int]);
            assert(mv[k as int] == (m@[k as int].0@, m@[k as int].1@));
        }
        if p.0 == *key {
            return Some(&p.1);
        }
        proof {
            assert(mv.skip(k as int).drop_first() =~= mv.skip(k + 1 as int));
        }
        k = k + 1;
    }
    proof {
        assert(mv.skip(k as int).len() == 0);
    }
    None
}

/// An optional string field: absent when missing or null.
fn get_opt_str(m: &Vec<(String, Json)>, key: &String) -> (r: Result<Option<String>, DecodeError>)
    ensures
        (match r {
            Ok(v) => dec_opt_str(members_view(m@), key@) == Some(v.deep_view()),
            Err(_) => dec_opt_str(members_view(m@), key@) is None,
        }),
{
    match find_key(m, key) {
        None => Ok(None),
        Some(j) => match j {
            Json::Null => Ok(None),
            Json::Str(s) => Ok(Some(s.clone())),
            _ => Err(bad_field(key)),
        },
    }
}

/// An optional 32-bit integer field: absent when missing or null.
fn get_opt_i32(m: &Vec<(String, Json)>, key: &String) -> (r: Result<Option<i32>, DecodeError>)
    ensures
        (match r {
            Ok(v) => dec_opt_i32(members_view(m@), key@) == Some(v),
            Err(_) => dec_opt_i32(members_view(m@), key@) is None,
        }),
{
    match find_key(m, key) {
        None => Ok(None),
        Some(j) => match j {
            Json::Null => Ok(None),
            Json::Int(i) => {
                if i32::MIN as i64 <= *i && *i <= i32::MAX as i64 {
                    Ok(Some(*i as i32))
                } else {
                    Err(bad_field(key))
                }
            },
            _ => Err(bad_field(key)),
        },
    }
}

/// A required string field.
fn get_req_str(m: &Vec<(String, Json)>, key: &String) -> (r: Result<String, DecodeError>)
    ensures
        (match r {
            Ok(v) => dec_req_str(members_view(m@), key@) == Some(v@),
            Err(_) => dec_req_str(members_view(m@), key@) is None,
        }),
{
    match find_key(m, key) {
        None => Err(bad_field(key)),
        Some(j) => match j {
            Json::Str(s) => Ok(s.clone()),
            _ => Err(bad_field(key)),
        },
    }
}

/// A required 32-bit integer field.
fn get_req_i32(m: &Vec<(String, Json)>, key: &String) -> (r: Result<i32, DecodeError>)
    ensures
        (match r {
            Ok(v) => dec_req_i32(members_view(m@), key@) == Some(v),
            Err(_) => dec_req_i32(members_view(m@), key@) is None,
        }),
{
    match find_key(m, key) {
        None => Err(bad_field(key)),
        Some(j) => match j {
            Json::Int(i) => {
                if i32::MIN as i64 <= *i && *i <= i32::MAX as i64 {
                    Ok(*i as i32)
                } else {
                    Err(bad_field(key))
                }
            },
            _ => Err(bad_field(key)),
        },
    }
}

fn json_ingredient(j: &Json) -> (r: Result<RecipeIngredient, DecodeError>)
    ensures
        (match r {
            Ok(x) => dec_ingredient(j@) == Some(x@),
            Err(_) => dec_ingredient(j@) is None,
        }),
{
    match j {
        Json::Obj(m) => {
            let recipe_ingredient_id = match get_opt_i32(m, &String::from_str(
                "recipe_ingredient_id",
            )) {
                Ok(v) => v,
                Err(e) => {
                    proof {
                        reveal_strlit("recipe_ingredient_id");
                        assert("recipe_ingredient_id"@ =~= k_recipe_ingredient_id());
                    }
                    return Err(e);
                },
            };
            let recipe_id = match get_req_i32(m, &String::from_str("recipe_id")) {
                Ok(v) => v,
                Err(e) => {
                    proof {
                        reveal_strlit("recipe_id");
                        assert("recipe_id"@ =~= k_recipe_id());
                    }
                    return Err(e);
                },
            };
            let ingredient_name = match get_req_str(m, &String::from_str("ingredient_name")) {
                Ok(v) => v,
                Err(e) => {
                    proof {
                        reveal_strlit("ingredient_name");
                        assert("ingredient_name"@ =~= k_ingredient_name());
                    }
                    return Err(e);
                },
            };
            let quantity = match get_opt_str(m, &String::from_str("quantity")) {
                Ok(v) => v,
                Err(e) => {
                    proof {
                        reveal_strlit("quantity");
                        assert("quantity"@ =~= k_quantity());
                    }
                    return Err(e);
                },
            };
            let unit = match get_opt_str(m, &String::from_str("unit")) {
                Ok(v) => v,
                Err(e) => {
                    proof {
                        reveal_strlit("unit");
                        assert("unit"@ =~= k_unit());
                    }
                    return Err(e);
                },
            };
            let created_at = match get_opt_str(m, &String::from_str("created_at")) {
                Ok(v) => v,
                Err(e) => {
                    proof {
                        reveal_strlit("created_at");
                        assert("created_at"@ =~= k_created_at());
                    }
                    return Err(e);
                },
            };
            let updated_at = match get_opt_str(m, &String::from_str("updated_at")) {
                Ok(v) => v,
                Err(e) => {
                    proof {
                        reveal_strlit("updated_at");
                        assert("updated_at"@ =~= k_updated_at());
                    }
                    return Err(e);
                },
            };
            proof {
                reveal_strlit("recipe_ingredient_id");
                reveal_strlit("recipe_id");
                reveal_strlit("ingredient_name");
                reveal_strlit("quantity");
                reveal_strlit("unit");
                reveal_strlit("created_at");
                reveal_strlit("updated_at");
                assert("recipe_ingredient_id"@ =~= k_recipe_ingredient_id());
                assert("recipe_id"@ =~= k_recipe_id());
                assert("ingredient_name"@ =~= k_ingredient_name());
                assert("quantity"@ =~= k_quantity());
                assert("unit"@ =~= k_unit());
                assert("created_at"@ =~= k_created_at());
                assert("updated_at"@ =~= k_updated_at());
            }
            let x = RecipeIngredient {
                recipe_ingredient_id,
                recipe_id,
                ingredient_name,
                quantity,
                unit,
                created_at,
                updated_at,
            };
            proof {
                assert(dec_ingredient(j@) =~~= Some(x@));
            }
            Ok(x)
        },
        _ => Err(DecodeError { message: String::from_str("expected an ingredient object") }),
    }
}

fn json_step(j: &Json) -> (r: Result<RecipeStep, DecodeError>)
    ensures
        (match r {
            Ok(x) => dec_step(j@) == Some(x@),
            Err(_) => dec_step(j@) is None,
        }),
{
    match j {
        Json::Obj(m) => {
            let step_id = match get_opt_i32(m, &String::from_str("step_id")) {
                Ok(v) => v,
                Err(e) => {
                    proof {
                        reveal_strlit("step_id");
                        assert("step_id"@ =~= k_step_id());
                    }
                    return Err(e);
                },
            };
            let recipe_id = match get_req_i32(m, &String::from_str("recipe_id")) {
                Ok(v) => v,
                Err(e) => {
                    proof {
                        reveal_strlit("recipe_id");
                        assert("recipe_id"@ =~= k_recipe_id());
                    }
                    return Err(e);
                },
            };
            let step_number = match get_req_i32(m, &String::from_str("step_number")) {
                Ok(v) => v,
                Err(e) => {
                    proof {
                        reveal_strlit("step_number");
                        assert("step_number"@ =~= k_step_number());
                    }
                    return Err(e);
                },
            };
            let instructions = match get_req_str(m, &String::from_str("instructions")) {
                Ok(v) => v,
                Err(e) => {
                    proof {
                        reveal_strlit("instructions");
                        assert("instructions"@ =~= k_instructions());
                    }
                    return Err(e);
                },
            };
            let created_at = match get_opt_str(m, &String::from_str("created_at")) {
                Ok(v) => v,
                Err(e) => {
                    proof {
                        reveal_strlit("created_at");
                        assert("created_at"@ =~= k_created_at());
                    }
                    return Err(e);
                },
            };
            let updated_at = match get_opt_str(m, &String::from_str("updated_at")) {
                Ok(v) => v,
                Err(e) => {
                    proof {
                        reveal_strlit("updated_at");
                        assert("updated_at"@ =~= k_updated_at());
                    }
                    return Err(e);
                },
            };
            proof {
                reveal_strlit("step_id");
                reveal_strlit("recipe_id");
                reveal_strlit("step_number");
                reveal_strlit("instructions");
                reveal_strlit("created_at");
                reveal_strlit("updated_at");
                assert("step_id"@ =~= k_step_id());
                assert("recipe_id"@ =~= k_recipe_id());
                assert("step_number"@ =~= k_step_number());
                assert("instructions"@ =~= k_instructions());
                assert("created_at"@ =~= k_created_at());
                assert("updated_at"@ =~= k_updated_at());
            }
            let x = RecipeStep {
                step_id,
                recipe_id,
                step_number,
                instructions,
                created_at,
                updated_at,
            };
            proof {
                assert(dec_step(j@) =~~= Some(x@));
            }
            Ok(x)
        },
        _ => Err(DecodeError { message: String::from_str("expected a step object") }),
    }
}

fn json_note(j: &Json) -> (r: Result<RecipeNote, DecodeError>)
    ensures
        (match r {
            Ok(x) => dec_note(j@) == Some(x@),
            Err(_) => dec_note(j@) is None,
        }),
{
    match j {
        Json::Obj(m) => {
            let note_id = match get_opt_i32(m, &String::from_str("note_id")) {
                Ok(v) => v,
                Err(e) => {
                    proof {
                        reveal_strlit("note_id");
                        assert("note_id"@ =~= k_note_id());
                    }
                    return Err(e);
                },
            };
            let recipe_id = match get_req_i32(m, &String::from_str("recipe_id")) {
                Ok(v) => v,
                Err(e) => {
                    proof {
                        reveal_strlit("recipe_id");
                        assert("recipe_id"@ =~= k_recipe_id());
                    }
                    return Err(e);
                },
            };
            let note = match get_req_str(m, &String::from_str("note")) {
                Ok(v) => v,
                Err(e) => {
                    proof {
                        reveal_strlit("note");
                        assert("note"@ =~= k_note());
                    }
                    return Err(e);
                },
            };
            let created_at = match get_opt_str(m, &String::from_str("created_at")) {
                Ok(v) => v,
                Err(e) => {
                    proof {
                        reveal_strlit("created_at");
                        assert("created_at"@ =~= k_created_at());
                    }
                    return Err(e);
                },
            };
            let updated_at = match get_opt_str(m, &String::from_str("updated_at")) {
                Ok(v) => v,
                Err(e) => {
                    proof {
                        reveal_strlit("updated_at");
                        assert("updated_at"@ =~= k_updated_at());
                    }
                    return Err(e);
                },
            };
            proof {
                reveal_strlit("note_id");
                reveal_strlit("recipe_id");
                reveal_strlit("note");
                reveal_strlit("created_at");
                reveal_strlit("updated_at");
                assert("note_id"@ =~= k_note_id());
                assert("recipe_id"@ =~= k_recipe_id());
                assert("note"@ =~= k_note());
                assert("created_at"@ =~= k_created_at());
                assert("updated_at"@ =~= k_updated_at());
            }
            let x = RecipeNote { note_id, recipe_id, note, created_at, updated_at };
            proof {
                assert(dec_note(j@) =~~= Some(x@));
            }
            Ok(x)
        },
        _ => Err(DecodeError { message: String::from_str("expected a note object") }),
    }
}

fn json_ingredients(l: &Vec<Json>) -> (r: Result<Vec<RecipeIngredient>, DecodeError>)
    ensures
        (match r {
            Ok(v) => dec_ingredients(seq_view(l@)) == Some(v.deep_view()),
            Err(_) => dec_ingredients(seq_view(l@)) is None,
        }),
{
    let mut out: Vec<RecipeIngredient> = Vec::new();
    let mut k: usize = 0;
    proof {
        assert(seq_view(l@).skip(0) =~= seq_view(l@));
    }
    while k < l.len()
        invariant
            k <= l@.len(),
            (dec_ingredients(seq_view(l@)) == (match dec_ingredients(
                seq_view(l@).skip(k as int),
            ) {
                Some(rest) => Some(out.deep_view() + rest),
                None => None,
            })),
        decreases l@.len() - k,
    {
        proof {
            assert(seq_view(l@).skip(k as int)[0] == seq_view(l@)[k as int]);
            assert(seq_view(l@)[k as int] == l@[k as int]@);
            assert(seq_view(l@).skip(k as int).drop_first() =~= seq_view(l@).skip(k + 1 as int));
        }
        match json_ingredient(&l[k]) {
            Err(e) => {
                return Err(e);
            },
            Ok(x) => {
                let ghost pre = out.deep_view();
                out.push(x);
                proof {
                    assert(out.deep_view() =~~= pre.push(x@));
                    match dec_ingredients(seq_view(l@).skip(k + 1 as int)) {
                        Some(rest) => {
                            assert(pre + (seq![x@] + rest) =~= pre.push(x@) + rest);
                        },
                        None => {},
                    }
                }
                k = k + 1;
            },
        }
    }
    proof {
        assert(seq_view(l@).skip(k as int).len() == 0);
        assert(out.deep_view() + Seq::<IngredientV>::empty() =~= out.deep_view());
    }
    Ok(out)
}

fn json_steps(l: &Vec<Json>) -> (r: Result<Vec<RecipeStep>, DecodeError>)
    ensures
        (match r {
            Ok(v) => dec_steps(seq_view(l@)) == Some(v.deep_view()),
            Err(_) => dec_steps(seq_view(l@)) is None,
        }),
{
    let mut out: Vec<RecipeStep> = Vec::new();
    let mut k: usize = 0;
    proof {
        assert(seq_view(l@).skip(0) =~= seq_view(l@));
    }
    while k < l.len()
        invariant
            k <= l@.len(),
            (dec_steps(seq_view(l@)) == (match dec_steps(seq_view(l@).skip(k as int)) {
                Some(rest) => Some(out.deep_view() + rest),
                None => None,
            })),
        decreases l@.len() - k,
    {
        proof {
            assert(seq_view(l@).skip(k as int)[0] == seq_view(l@)[k as int]);
            assert(seq_view(l@)[k as int] == l@[k as int]@);
            assert(seq_view(l@).skip(k as int).drop_first() =~= seq_view(l@).skip(k + 1 as int));
        }
        match json_step(&l[k]) {
            Err(e) => {
                return Err(e);
            },
            Ok(x) => {
                let ghost pre = out.deep_view();
                out.push(x);
                proof {
                    assert(out.deep_view() =~~= pre.push(x@));
                    match dec_steps(seq_view(l@).skip(k + 1 as int)) {
                        Some(rest) => {
                            assert(pre + (seq![x@] + rest) =~= pre.push(x@) + rest);
                        },
                        None => {},
                    }
                }
                k = k + 1;
            },
        }
    }
    proof {
        assert(seq_view(l@).skip(k as int).len() == 0);
        assert(out.deep_view() + Seq::<StepV>::empty() =~= out.deep_view());
    }
    Ok(out)
}

fn json_notes(l: &Vec<Json>) -> (r: Result<Vec<RecipeNote>, DecodeError>)
    ensures
        (match r {
            Ok(v) => dec_notes(seq_view(l@)) == Some(v.deep_view()),
            Err(_) => dec_notes(seq_view(l@)) is None,
        }),
{
    let mut out: Vec<RecipeNote> = Vec::new();
    let mut k: usize = 0;
    proof {
        assert(seq_view(l@).skip(0) =~= seq_view(l@));
    }
    while k < l.len()
        invariant
            k <= l@.len(),
            (dec_notes(seq_view(l@)) == (match dec_notes(seq_view(l@).skip(k as int)) {
                Some(rest) => Some(out.deep_view() + rest),
                None => None,
            })),
        decreases l@.len() - k,
    {
        proof {
            assert(seq_view(l@).skip(k as int)[0] == seq_view(l@)[k as int]);
            assert(seq_view(l@)[k as int] == l@[k as int]@);
            assert(seq_view(l@).skip(k as int).drop_first() =~= seq_view(l@).skip(k + 1 as int));
        }
        match json_note(&l[k]) {
            Err(e) => {
                return Err(e);
            },
            Ok(x) => {
                let ghost pre = out.deep_view();
                out.push(x);
                proof {
                    assert(out.deep_view() =~~= pre.push(x@));
                    match dec_notes(seq_view(l@).skip(k + 1 as int)) {
                        Some(rest) => {
                            assert(pre + (seq![x@] + rest) =~= pre.push(x@) + rest);
                        },
                        None => {},
                    }
                }
                k = k + 1;
            },
        }
    }
    proof {
        assert(seq_view(l@).skip(k as int).len() == 0);
        assert(out.deep_view() + Seq::<NoteV>::empty() =~= out.deep_view());
    }
    Ok(out)
}

fn get_ingredients(m: &Vec<(String, Json)>) -> (r: Result<Vec<RecipeIngredient>, DecodeError>)
    ensures
        (match r {
            Ok(v) => dec_ingredients_field(members_view(m@)) == Some(v.deep_view()),
            Err(_) => dec_ingredients_field(members_view(m@)) is None,
        }),
{
    let key = String::from_str("ingredients");
    proof {
        reveal_strlit("ingredients");
        assert("ingredients"@ =~= k_ingredients());
    }
    match find_key(m, &key) {
        None => {
            let v: Vec<RecipeIngredient> = Vec::new();
            proof {
                assert(v.deep_view() =~= Seq::<IngredientV>::empty());
            }
            Ok(v)
        },
        Some(j) => match j {
            Json::Null => {
                let v: Vec<RecipeIngredient> = Vec::new();
                proof {
                    assert(v.deep_view() =~= Seq::<IngredientV>::empty());
                }
                Ok(v)
            },
            Json::Arr(l) => json_ingredients(l),
            _ => Err(bad_field(&key)),
        },
    }
}

fn get_steps(m: &Vec<(String, Json)>) -> (r: Result<Vec<RecipeStep>, DecodeError>)
    ensures
        (match r {
            Ok(v) => dec_steps_field(members_view(m@)) == Some(v.deep_view()),
            Err(_) => dec_steps_field(members_view(m@)) is None,
        }),
{
    let key = String::from_str("steps");
    proof {
        reveal_strlit("steps");
        assert("steps"@ =~= k_steps());
    }
    match find_key(m, &key) {
        None => {
            let v: Vec<RecipeStep> = Vec::new();
            proof {
                assert(v.deep_view() =~= Seq::<StepV>::empty());
            }
            Ok(v)
        },
        Some(j) => match j {
            Json::Null => {
                let v: Vec<RecipeStep> = Vec::new();
                proof {
                    assert(v.deep_view() =~= Seq::<StepV>::empty());
                }
                Ok(v)
            },
            Json::Arr(l) => json_steps(l),
            _ => Err(bad_field(&key)),
        },
    }
}

fn get_notes(m: &Vec<(String, Json)>) -> (r: Result<Vec<RecipeNote>, DecodeError>)
    ensures
        (match r {
            Ok(v) => dec_notes_field(members_view(m@)) == Some(v.deep_view()),
            Err(_) => dec_notes_field(members_view(m@)) is None,
        }),
{
    let key = String::from_str("notes");
    proof {
        reveal_strlit("notes");
        assert("notes"@ =~= k_notes());
    }
    match find_key(m, &key) {
        None => {
            let v: Vec<RecipeNote> = Vec::new();
            proof {
                assert(v.deep_view() =~= Seq::<NoteV>::empty());
            }
            Ok(v)
        },
        Some(j) => match j {
            Json::Null => {
                let v: Vec<RecipeNote> = Vec::new();
                proof {
                    assert(v.deep_view() =~= Seq::<NoteV>::empty());
                }
                Ok(v)
            },
            Json::Arr(l) => json_notes(l),
            _ => Err(bad_field(&key)),
        },
    }
}

fn json_recipe(j: &Json) -> (r: Result<FullRecipe, DecodeError>)
    ensures
        (match r {
            Ok(x) => dec_recipe(j@) == Some(x@),
            Err(_) => dec_recipe(j@) is None,
        }),
{
    match j {
        Json::Obj(m) => {
            proof {
                reveal_strlit("recipe_id");
                reveal_strlit("name");
                reveal_strlit("description");
                reveal_strlit("prep_time_minutes");
                reveal_strlit("servings");
                reveal_strlit("main_photo");
                reveal_strlit("created_at");
                reveal_strlit("updated_at");
                assert("recipe_id"@ =~= k_recipe_id());
                assert("name"@ =~= k_name());
                assert("description"@ =~= k_description());
                assert("prep_time_minutes"@ =~= k_prep_time_minutes());
                assert("servings"@ =~= k_servings());
                assert("main_photo"@ =~= k_main_photo());
                assert("created_at"@ =~= k_created_at());
                assert("updated_at"@ =~= k_updated_at());
            }
            let recipe_id = match get_opt_i32(m, &String::from_str("recipe_id")) {
                Ok(v) => v,
                Err(e) => {
                    return Err(e);
                },
            };
            let name = match get_req_str(m, &String::from_str("name")) {
                Ok(v) => v,
                Err(e) => {
                    return Err(e);
                },
            };
            let description = match get_opt_str(m, &String::from_str("description")) {
                Ok(v) => v,
                Err(e) => {
                    return Err(e);
                },
            };
            let prep_time_minutes = match get_opt_i32(m, &String::from_str("prep_time_minutes")) {
                Ok(v) => v,
                Err(e) => {
                    return Err(e);
                },
            };
            let servings = match get_opt_i32(m, &String::from_str("servings")) {
                Ok(v) => v,
                Err(e) => {
                    return Err(e);
                },
            };
            let main_photo = match get_opt_str(m, &String::from_str("main_photo")) {
                Ok(v) => v,
                Err(e) => {
                    return Err(e);
                },
            };
            let created_at = match get_opt_str(m, &String::from_str("created_at")) {
                Ok(v) => v,
                Err(e) => {
                    return Err(e);
                },
            };
            let updated_at = match get_opt_str(m, &String::from_str("updated_at")) {
                Ok(v) => v,
                Err(e) => {
                    return Err(e);
                },
            };
            let ingredients = match get_ingredients(m) {
                Ok(v) => v,
                Err(e) => {
                    return Err(e);
                },
            };
            let steps = match get_steps(m) {
                Ok(v) => v,
                Err(e) => {
                    return Err(e);
                },
            };
            let notes = match get_notes(m) {
                Ok(v) => v,
                Err(e) => {
                    return Err(e);
                },
            };
            let x = FullRecipe {
                recipe_id,
                name,
                description,
                prep_time_minutes,
                servings,
                main_photo,
                created_at,
                updated_at,
                ingredients,
                steps,
                notes,
            };
            proof {
                assert(dec_recipe(j@) =~~= Some(x@));
            }
            Ok(x)
        },
        _ => Err(DecodeError { message: String::from_str("expected a recipe object") }),
    }
}

fn json_recipes(l: &Vec<Json>) -> (r: Result<Vec<FullRecipe>, DecodeError>)
    ensures
        (match r {
            Ok(v) => dec_recipes(seq_view(l@)) == Some(v.deep_view()),
            Err(_) => dec_recipes(seq_view(l@)) is None,
        }),
{
    let mut out: Vec<FullRecipe> = Vec::new();
    let mut k: usize = 0;
    proof {
        assert(seq_view(l@).skip(0) =~= seq_view(l@));
    }
    while k < l.len()
        invariant
            k <= l@.len(),
            (dec_recipes(seq_view(l@)) == (match dec_recipes(seq_view(l@).skip(k as int)) {
                Some(rest) => Some(out.deep_view() + rest),
                None => None,
            })),
        decreases l@.len() - k,
    {
        proof {
            assert(seq_view(l@).skip(k as int)[0] == seq_view(l@)[k as int]);
            assert(seq_view(l@)[k as int] == l@[k as int]@);
            assert(seq_view(l@).skip(k as int).drop_first() =~= seq_view(l@).skip(k + 1 as int));
        }
        match json_recipe(&l[k]) {
            Err(e) => {
                return Err(e);
            },
            Ok(x) => {
                let ghost pre = out.deep_view();
                out.push(x);
                proof {
                    assert(out.deep_view() =~~= pre.push(x@));
                    match dec_recipes(seq_view(l@).skip(k + 1 as int)) {
                        Some(rest) => {
                            assert(pre + (seq![x@] + rest) =~= pre.push(x@) + rest);
                        },
                        None => {},
                    }
                }
                k = k + 1;
            },
        }
    }
    proof {
        assert(seq_view(l@).skip(k as int).len() == 0);
        assert(out.deep_view() + Seq::<FullRecipeV>::empty() =~= out.deep_view());
    }
    Ok(out)
}

/// Decodes interchange text into a recipe collection.  Fails exactly on
/// text that is not a well-formed document of the interchange format:
/// malformed syntax, a top-level value that is not an array, or a recipe
/// or child object with a missing or ill-typed required field.
pub fn decode(text: &str) -> (r: Result<Vec<FullRecipe>, DecodeError>)
    ensures
        (match r {
            Ok(v) => dec_doc(text@) == Some(v.deep_view()),
            Err(_) => dec_doc(text@) is None,
        }),
{
    match crate::json::parse_text(text) {
        None => Err(DecodeError { message: String::from_str("malformed interchange text") }),
        Some(j) => match j {
            Json::Arr(l) => json_recipes(&l),
            _ => Err(
                DecodeError { message: String::from_str("expected a collection of recipes") },
            ),
        },
    }
}

} // verus!
