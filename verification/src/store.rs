//! An in-memory relational model of the recipe storage: four tables and a
//! fresh-identifier counter per table.
//!
//! Every insert assigns the next identifier of its table and never reuses
//! one supplied by the caller, so imported documents cannot collide with
//! existing rows.  The aggregate query builds the same denormalized
//! left-join row stream a relational store would return and folds it with
//! the row aggregator.  The bulk writer persists each document parent
//! first, rebinding every child to the freshly assigned parent identifier;
//! inserts are not wrapped in a transaction, so a failure keeps what was
//! already written, exactly as each statement commits on its own.

use vstd::prelude::*;

use crate::aggregate::{aggregate_rows, aggregate_spec, JoinRow, JoinRowV};
use crate::model::{FullRecipe, FullRecipeV, IngredientV, NoteV, Recipe, RecipeIngredient,
    RecipeNote, RecipeStep, RecipeV, StepV};
use crate::Error;

verus! {

broadcast use vstd::seq::group_seq_axioms, vstd::std_specs::vec::group_vec_axioms;

/// The four tables and their identifier counters.
pub struct Store {
    pub recipes: Vec<Recipe>,
    pub ingredients: Vec<RecipeIngredient>,
    pub steps: Vec<RecipeStep>,
    pub notes: Vec<RecipeNote>,
    pub next_recipe_id: i32,
    pub next_ingredient_id: i32,
    pub next_step_id: i32,
    pub next_note_id: i32,
}

/// Mathematical view of a `Store`.
#[verifier::ext_equal]
pub ghost struct StoreV {
    pub recipes: Seq<RecipeV>,
    pub ingredients: Seq<IngredientV>,
    pub steps: Seq<StepV>,
    pub notes: Seq<NoteV>,
    pub next_recipe_id: i32,
    pub next_ingredient_id: i32,
    pub next_step_id: i32,
    pub next_note_id: i32,
}

impl View for Store {
    type V = StoreV;

    open spec fn view(&self) -> StoreV {
        StoreV {
            recipes: self.recipes.deep_view(),
            ingredients: self.ingredients.deep_view(),
            steps: self.steps.deep_view(),
            notes: self.notes.deep_view(),
            next_recipe_id: self.next_recipe_id,
            next_ingredient_id: self.next_ingredient_id,
            next_step_id: self.next_step_id,
            next_note_id: self.next_note_id,
        }
    }
}

/// Every row carries an identifier that the store assigned: present,
/// positive, below the table's counter, and unique within its table.
pub open spec fn wf(s: StoreV) -> bool {
    &&& 1 <= s.next_recipe_id
    &&& 1 <= s.next_ingredient_id
    &&& 1 <= s.next_step_id
    &&& 1 <= s.next_note_id
    &&& forall|i: int|
        0 <= i < s.recipes.len() ==> (#[trigger] s.recipes[i].recipe_id) is Some
            && 1 <= s.recipes[i].recipe_id->0 < s.next_recipe_id
    &&& forall|i: int, j: int|
        0 <= i < j < s.recipes.len() ==> s.recipes[i].recipe_id != s.recipes[j].recipe_id
    &&& forall|i: int|
        0 <= i < s.ingredients.len() ==> (#[trigger] s.ingredients[i].recipe_ingredient_id)
            is Some && 1 <= s.ingredients[i].recipe_ingredient_id->0 < s.next_ingredient_id
    &&& forall|i: int, j: int|
        0 <= i < j < s.ingredients.len() ==> s.ingredients[i].recipe_ingredient_id
            != s.ingredients[j].recipe_ingredient_id
    &&& forall|i: int|
        0 <= i < s.steps.len() ==> (#[trigger] s.steps[i].step_id) is Some
            && 1 <= s.steps[i].step_id->0 < s.next_step_id
    &&& forall|i: int, j: int|
        0 <= i < j < s.steps.len() ==> s.steps[i].step_id != s.steps[j].step_id
    &&& forall|i: int|
        0 <= i < s.notes.len() ==> (#[trigger] s.notes[i].note_id) is Some
            && 1 <= s.notes[i].note_id->0 < s.next_note_id
    &&& forall|i: int, j: int|
        0 <= i < j < s.notes.len() ==> s.notes[i].note_id != s.notes[j].note_id
}

// ---------------------------------------------------------------------------
// What each insert does
// ---------------------------------------------------------------------------

/// A recipe insert: the stored row gets the next recipe identifier,
/// whatever identifier the argument carried.
pub open spec fn add_recipe_s(s: StoreV, r: RecipeV) -> StoreV {
    StoreV {
        recipes: s.recipes.push(RecipeV { recipe_id: Some(s.next_recipe_id), ..r }),
        next_recipe_id: (s.next_recipe_id + 1) as i32,
        ..s
    }
}

pub open spec fn add_ingredient_s(s: StoreV, x: IngredientV) -> StoreV {
    StoreV {
        ingredients: s.ingredients.push(
            IngredientV { recipe_ingredient_id: Some(s.next_ingredient_id), ..x },
        ),
        next_ingredient_id: (s.next_ingredient_id + 1) as i32,
        ..s
    }
}

pub open spec fn add_step_s(s: StoreV, x: StepV) -> StoreV {
    StoreV {
        steps: s.steps.push(StepV { step_id: Some(s.next_step_id), ..x }),
        next_step_id: (s.next_step_id + 1) as i32,
        ..s
    }
}

pub open spec fn add_note_s(s: StoreV, x: NoteV) -> StoreV {
    StoreV {
        notes: s.notes.push(NoteV { note_id: Some(s.next_note_id), ..x }),
        next_note_id: (s.next_note_id + 1) as i32,
        ..s
    }
}

impl Store {
    /// An empty store; the first row of each table will get identifier 1.
    pub fn new() -> (s: Store)
        ensures
            s@ == (StoreV {
                recipes: Seq::empty(),
                ingredients: Seq::empty(),
                steps: Seq::empty(),
                notes: Seq::empty(),
                next_recipe_id: 1,
                next_ingredient_id: 1,
                next_step_id: 1,
                next_note_id: 1,
            }),
            wf(s@),
    {
        let s = Store {
            recipes: Vec::new(),
            ingredients: Vec::new(),
            steps: Vec::new(),
            notes: Vec::new(),
            next_recipe_id: 1,
            next_ingredient_id: 1,
            next_step_id: 1,
            next_note_id: 1,
        };
        proof {
            assert(s@.recipes =~= Seq::<RecipeV>::empty());
            assert(s@.ingredients =~= Seq::<IngredientV>::empty());
            assert(s@.steps =~= Seq::<StepV>::empty());
            assert(s@.notes =~= Seq::<NoteV>::empty());
            assert(s@ =~= (StoreV {
                recipes: Seq::empty(),
                ingredients: Seq::empty(),
                steps: Seq::empty(),
                notes: Seq::empty(),
                next_recipe_id: 1,
                next_ingredient_id: 1,
                next_step_id: 1,
                next_note_id: 1,
            }));
        }
        s
    }

    /// Inserts a recipe row.  The stored row's identifier is assigned by
    /// the store; the argument's identifier is ignored.  Fails only when
    /// the identifier space is exhausted, leaving the store unchanged.
    pub fn add_recipe(&mut self, r: Recipe) -> (res: Result<i32, Error>)
        requires
            wf(old(self)@),
        ensures
            wf(final(self)@),
            (match res {
                Ok(id) => {
                    &&& id == old(self)@.next_recipe_id
                    &&& final(self)@ == add_recipe_s(old(self)@, r@)
                    &&& old(self)@.next_recipe_id < i32::MAX
                },
                Err(e) => {
                    &&& e is Storage
                    &&& final(self)@ == old(self)@
                    &&& old(self)@.next_recipe_id == i32::MAX
                },
            }),
    {
        if self.next_recipe_id == i32::MAX {
            proof {
                assert(self@ =~= old(self)@);
            }
            return Err(Error::Storage);
        }
        let id = self.next_recipe_id;
        let stored = Recipe {
            recipe_id: Some(id),
            name: r.name,
            description: r.description,
            prep_time_minutes: r.prep_time_minutes,
            servings: r.servings,
            main_photo: r.main_photo,
            created_at: r.created_at,
            updated_at: r.updated_at,
        };
        let ghost pre = self@;
        self.recipes.push(stored);
        self.next_recipe_id = id + 1;
        proof {
            assert(self@.recipes =~= pre.recipes.push(RecipeV { recipe_id: Some(id), ..r@ }));
            assert(self@ =~~= add_recipe_s(pre, r@));
            assert(forall|i: int|
                0 <= i < pre.recipes.len() ==> self@.recipes[i] == pre.recipes[i]);
        }
        Ok(id)
    }

    /// Inserts an ingredient row bound to the recipe identifier the
    /// argument carries; the child's own identifier is assigned by the
    /// store.
    pub fn add_ingredient(&mut self, x: RecipeIngredient) -> (res: Result<i32, Error>)
        requires
            wf(old(self)@),
        ensures
            wf(final(self)@),
            (match res {
                Ok(id) => {
                    &&& id == old(self)@.next_ingredient_id
                    &&& final(self)@ == add_ingredient_s(old(self)@, x@)
                    &&& old(self)@.next_ingredient_id < i32::MAX
                },
                Err(e) => {
                    &&& e is Storage
                    &&& final(self)@ == old(self)@
                    &&& old(self)@.next_ingredient_id == i32::MAX
                },
            }),
    {
        if self.next_ingredient_id == i32::MAX {
            proof {
                assert(self@ =~= old(self)@);
            }
            return Err(Error::Storage);
        }
        let id = self.next_ingredient_id;
        let stored = RecipeIngredient {
            recipe_ingredient_id: Some(id),
            recipe_id: x.recipe_id,
            ingredient_name: x.ingredient_name,
            quantity: x.quantity,
            unit: x.unit,
            created_at: x.created_at,
            updated_at: x.updated_at,
        };
        let ghost pre = self@;
        self.ingredients.push(stored);
        self.next_ingredient_id = id + 1;
        proof {
            assert(self@.ingredients =~= pre.ingredients.push(
                IngredientV { recipe_ingredient_id: Some(id), ..x@ },
            ));
            assert(self@ =~~= add_ingredient_s(pre, x@));
            assert(forall|i: int|
                0 <= i < pre.ingredients.len() ==> self@.ingredients[i] == pre.ingredients[i]);
        }
        Ok(id)
    }

    /// Inserts a step row; the step's own identifier is assigned by the
    /// store.
    pub fn add_step(&mut self, x: RecipeStep) -> (res: Result<i32, Error>)
        requires
            wf(old(self)@),
        ensures
            wf(final(self)@),
            (match res {
                Ok(id) => {
                    &&& id == old(self)@.next_step_id
                    &&& final(self)@ == add_step_s(old(self)@, x@)
                    &&& old(self)@.next_step_id < i32::MAX
                },
                Err(e) => {
                    &&& e is Storage
                    &&& final(self)@ == old(self)@
                    &&& old(self)@.next_step_id == i32::MAX
                },
            }),
    {
        if self.next_step_id == i32::MAX {
            proof {
                assert(self@ =~= old(self)@);
            }
            return Err(Error::Storage);
        }
        let id = self.next_step_id;
        let stored = RecipeStep {
            step_id: Some(id),
            recipe_id: x.recipe_id,
            step_number: x.step_number,
            instructions: x.instructions,
            created_at: x.created_at,
            updated_at: x.updated_at,
        };
        let ghost pre = self@;
        self.steps.push(stored);
        self.next_step_id = id + 1;
        proof {
            assert(self@.steps =~= pre.steps.push(StepV { step_id: Some(id), ..x@ }));
            assert(self@ =~~= add_step_s(pre, x@));
            assert(forall|i: int| 0 <= i < pre.steps.len() ==> self@.steps[i] == pre.steps[i]);
        }
        Ok(id)
    }

    /// Inserts a note row; the note's own identifier is assigned by the
    /// store.
    pub fn add_note(&mut self, x: RecipeNote) -> (res: Result<i32, Error>)
        requires
            wf(old(self)@),
        ensures
            wf(final(self)@),
            (match res {
                Ok(id) => {
                    &&& id == old(self)@.next_note_id
                    &&& final(self)@ == add_note_s(old(self)@, x@)
                    &&& old(self)@.next_note_id < i32::MAX
                },
                Err(e) => {
                    &&& e is Storage
                    &&& final(self)@ == old(self)@
                    &&& old(self)@.next_note_id == i32::MAX
                },
            }),
    {
        if self.next_note_id == i32::MAX {
            proof {
                assert(self@ =~= old(self)@);
            }
            return Err(Error::Storage);
        }
        let id = self.next_note_id;
        let stored = RecipeNote {
            note_id: Some(id),
            recipe_id: x.recipe_id,
            note: x.note,
            created_at: x.created_at,
            updated_at: x.updated_at,
        };
        let ghost pre = self@;
        self.notes.push(stored);
        self.next_note_id = id + 1;
        proof {
            assert(self@.notes =~= pre.notes.push(NoteV { note_id: Some(id), ..x@ }));
            assert(self@ =~~= add_note_s(pre, x@));
            assert(forall|i: int| 0 <= i < pre.notes.len() ==> self@.notes[i] == pre.notes[i]);
        }
        Ok(id)
    }
}

/// A full-field replace of one recipe's editable columns, keyed by
/// identifier; rows with any other identifier stay as they are.
pub open spec fn update_recipe_s(
    s: StoreV,
    rid: Option<i32>,
    name: Seq<char>,
    description: Option<Seq<char>>,
    prep_time_minutes: Option<i32>,
    servings: Option<i32>,
) -> StoreV {
    StoreV {
        recipes: Seq::new(
            s.recipes.len(),
            |i: int| if s.recipes[i].recipe_id == rid {
                RecipeV { name, description, prep_time_minutes, servings, ..s.recipes[i] }
            } else {
                s.recipes[i]
            },
        ),
        ..s
    }
}

impl Store {
    /// Replaces a recipe's editable columns by identifier, as the edit
    /// form submits them; the photo and the timestamps are not touched.
    /// Returns how many rows changed (0 when no recipe has the
    /// identifier, which is not an error).
    #[verifier::loop_isolation(false)]
    pub fn update_recipe(
        &mut self,
        recipe_id: Option<i32>,
        name: String,
        description: Option<String>,
        prep_time_minutes: Option<i32>,
        servings: Option<i32>,
    ) -> (res: i32)
        requires
            wf(old(self)@),
        ensures
            wf(final(self)@),
            final(self)@ == update_recipe_s(
                old(self)@,
                recipe_id,
                name@,
                description.deep_view(),
                prep_time_minutes,
                servings,
            ),
            res == 0 || res == 1,
            (res == 1) == (exists|i: int|
                0 <= i < old(self)@.recipes.len() && (#[trigger] old(
                    self,
                )@.recipes[i]).recipe_id == recipe_id),
    {
        let ghost s0 = self@;
        let ghost target = update_recipe_s(
            s0,
            recipe_id,
            name@,
            description.deep_view(),
            prep_time_minutes,
            servings,
        );
        let mut k: usize = 0;
        while k < self.recipes.len()
            invariant
                k <= self.recipes@.len(),
                self@ == s0,
                forall|i: int|
                    0 <= i < k as int ==> (#[trigger] s0.recipes[i]).recipe_id != recipe_id,
            decreases self.recipes@.len() - k,
        {
            let hit = match (self.recipes[k].recipe_id, recipe_id) {
                (Some(a), Some(b)) => a == b,
                (None, None) => true,
                _ => false,
            };
            proof {
                assert(self.recipes@[k as int]@ == s0.recipes[k as int]);
            }
            if hit {
                let old_row = self.recipes.remove(k);
                let new_row = Recipe {
                    recipe_id: old_row.recipe_id,
                    name,
                    description,
                    prep_time_minutes,
                    servings,
                    main_photo: old_row.main_photo,
                    created_at: old_row.created_at,
                    updated_at: old_row.updated_at,
                };
                self.recipes.insert(k, new_row);
                proof {
                    // A well-formed store has one row per identifier, so
                    // replacing the hit leaves every other row alone.
                    assert(forall|i: int|
                        0 <= i < s0.recipes.len() && i != k as int ==> (#[trigger] s0.recipes[i]).recipe_id
                            != recipe_id);
                    assert(self@.recipes =~~= target.recipes);
                    assert(self@ =~~= target);
                }
                return 1;
            }
            k = k + 1;
        }
        proof {
            assert(forall|i: int|
                0 <= i < s0.recipes.len() ==> (#[trigger] s0.recipes[i]).recipe_id != recipe_id);
            assert(self@.recipes =~~= target.recipes);
            assert(self@ =~~= target);
        }
        0
    }

    /// Deletes a recipe row by identifier; a missing identifier is
    /// NotFound.  Deliberately no cascade: the recipe's child rows stay
    /// behind, orphaned, and the aggregator never shows them (its join
    /// starts from the parent side).
    #[verifier::loop_isolation(false)]
    pub fn delete_recipe(&mut self, recipe_id: i32) -> (res: Result<(), Error>)
        requires
            wf(old(self)@),
        ensures
            wf(final(self)@),
            (match res {
                Ok(_) => exists|i: int|
                    0 <= i < old(self)@.recipes.len() && (#[trigger] old(
                        self,
                    )@.recipes[i]).recipe_id == Some(recipe_id) && final(self)@ == (StoreV {
                        recipes: old(self)@.recipes.remove(i),
                        ..old(self)@
                    }),
                Err(e) => {
                    &&& e is NotFound
                    &&& final(self)@ == old(self)@
                    &&& forall|i: int|
                        0 <= i < old(self)@.recipes.len() ==> (#[trigger] old(
                            self,
                        )@.recipes[i]).recipe_id != Some(recipe_id)
                },
            }),
    {
        let ghost s0 = self@;
        let mut k: usize = 0;
        while k < self.recipes.len()
            invariant
                k <= self.recipes@.len(),
                self@ == s0,
                forall|i: int|
                    0 <= i < k as int ==> (#[trigger] s0.recipes[i]).recipe_id != Some(recipe_id),
            decreases self.recipes@.len() - k,
        {
            let hit = match self.recipes[k].recipe_id {
                Some(a) => a == recipe_id,
                None => false,
            };
            proof {
                assert(self.recipes@[k as int]@ == s0.recipes[k as int]);
            }
            if hit {
                self.recipes.remove(k);
                proof {
                    assert(self@.recipes =~~= s0.recipes.remove(k as int));
                    assert(self@ =~~= (StoreV { recipes: s0.recipes.remove(k as int), ..s0 }));
                    assert(forall|i: int|
                        0 <= i < self@.recipes.len() ==> #[trigger] self@.recipes[i]
                            == (if i < k as int {
                            s0.recipes[i]
                        } else {
                            s0.recipes[i + 1]
                        }));
                }
                return Ok(());
            }
            k = k + 1;
        }
        proof {
            assert(self@ =~~= s0);
        }
        Err(Error::NotFound)
    }
}

// ---------------------------------------------------------------------------
// The join: the row stream a left join over the four tables returns
// ---------------------------------------------------------------------------

/// The join's parent-identifier column: a recipe without an identifier
/// joins as 0 (a well-formed store has none).
pub open spec fn pid_of(r: RecipeV) -> i32 {
    match r.recipe_id {
        Some(id) => id,
        None => 0,
    }
}

/// One row: the parent's columns plus one child column group of each
/// kind, or that group's padding when the recipe has no such child.
pub open spec fn mk_row(
    r: RecipeV,
    ing: Option<IngredientV>,
    st: Option<StepV>,
    nt: Option<NoteV>,
) -> JoinRowV {
    JoinRowV {
        recipe_id: pid_of(r),
        name: r.name,
        description: r.description,
        prep_time_minutes: r.prep_time_minutes,
        servings: r.servings,
        main_photo: r.main_photo,
        created_at: r.created_at,
        updated_at: r.updated_at,
        ingredient_id: match ing {
            Some(x) => x.recipe_ingredient_id,
            None => None,
        },
        ingredient_name: match ing {
            Some(x) => x.ingredient_name,
            None => Seq::empty(),
        },
        quantity: match ing {
            Some(x) => x.quantity,
            None => None,
        },
        unit: match ing {
            Some(x) => x.unit,
            None => None,
        },
        step_id: match st {
            Some(x) => x.step_id,
            None => None,
        },
        step_number: match st {
            Some(x) => x.step_number,
            None => 0,
        },
        instructions: match st {
            Some(x) => x.instructions,
            None => Seq::empty(),
        },
        note_id: match nt {
            Some(x) => x.note_id,
            None => None,
        },
        note: match nt {
            Some(x) => x.note,
            None => Seq::empty(),
        },
    }
}

/// The ingredients of recipe `pid`, in table order.
pub open spec fn ings_of(s: Seq<IngredientV>, pid: i32) -> Seq<IngredientV>
    decreases s.len(),
{
    if s.len() == 0 {
        Seq::empty()
    } else {
        let prev = ings_of(s.drop_last(), pid);
        if s.last().recipe_id == pid {
            prev.push(s.last())
        } else {
            prev
        }
    }
}

pub open spec fn steps_of(s: Seq<StepV>, pid: i32) -> Seq<StepV>
    decreases s.len(),
{
    if s.len() == 0 {
        Seq::empty()
    } else {
        let prev = steps_of(s.drop_last(), pid);
        if s.last().recipe_id == pid {
            prev.push(s.last())
        } else {
            prev
        }
    }
}

pub open spec fn notes_of(s: Seq<NoteV>, pid: i32) -> Seq<NoteV>
    decreases s.len(),
{
    if s.len() == 0 {
        Seq::empty()
    } else {
        let prev = notes_of(s.drop_last(), pid);
        if s.last().recipe_id == pid {
            prev.push(s.last())
        } else {
            prev
        }
    }
}

/// The note dimension: one row per note, or one padded row.
pub open spec fn note_dim(
    r: RecipeV,
    ing: Option<IngredientV>,
    st: Option<StepV>,
    nts: Seq<NoteV>,
) -> Seq<JoinRowV> {
    if nts.len() == 0 {
        seq![mk_row(r, ing, st, None)]
    } else {
        Seq::new(nts.len(), |i: int| mk_row(r, ing, st, Some(nts[i])))
    }
}

pub open spec fn steps_block(
    r: RecipeV,
    ing: Option<IngredientV>,
    sts: Seq<StepV>,
    nts: Seq<NoteV>,
) -> Seq<JoinRowV>
    decreases sts.len(),
{
    if sts.len() == 0 {
        Seq::empty()
    } else {
        steps_block(r, ing, sts.drop_last(), nts) + note_dim(r, ing, Some(sts.last()), nts)
    }
}

/// The step dimension: the note dimension once per step, or once padded.
pub open spec fn step_dim(
    r: RecipeV,
    ing: Option<IngredientV>,
    sts: Seq<StepV>,
    nts: Seq<NoteV>,
) -> Seq<JoinRowV> {
    if sts.len() == 0 {
        note_dim(r, ing, None, nts)
    } else {
        steps_block(r, ing, sts, nts)
    }
}

pub open spec fn ings_block(
    r: RecipeV,
    ings: Seq<IngredientV>,
    sts: Seq<StepV>,
    nts: Seq<NoteV>,
) -> Seq<JoinRowV>
    decreases ings.len(),
{
    if ings.len() == 0 {
        Seq::empty()
    } else {
        ings_block(r, ings.drop_last(), sts, nts) + step_dim(r, Some(ings.last()), sts, nts)
    }
}

/// All rows of one recipe: the cartesian expansion of its three child
/// collections, each padded when empty.
pub open spec fn recipe_rows(
    r: RecipeV,
    ings: Seq<IngredientV>,
    sts: Seq<StepV>,
    nts: Seq<NoteV>,
) -> Seq<JoinRowV> {
    if ings.len() == 0 {
        step_dim(r, None, sts, nts)
    } else {
        ings_block(r, ings, sts, nts)
    }
}

pub open spec fn store_rows(s: StoreV, n: int) -> Seq<JoinRowV>
    decreases n,
{
    if n <= 0 {
        Seq::empty()
    } else {
        store_rows(s, n - 1) + recipe_rows(
            s.recipes[n - 1],
            ings_of(s.ingredients, pid_of(s.recipes[n - 1])),
            steps_of(s.steps, pid_of(s.recipes[n - 1])),
            notes_of(s.notes, pid_of(s.recipes[n - 1])),
        )
    }
}

/// The whole row stream: each recipe's rows in table order.
pub open spec fn join_store(s: StoreV) -> Seq<JoinRowV> {
    store_rows(s, s.recipes.len() as int)
}

// ---------------------------------------------------------------------------
// Executable join
// ---------------------------------------------------------------------------

/// View of an optional borrowed child.
pub open spec fn opt_ing_v(o: Option<&RecipeIngredient>) -> Option<IngredientV> {
    match o {
        Some(x) => Some(x@),
        None => None,
    }
}

pub open spec fn opt_step_v(o: Option<&RecipeStep>) -> Option<StepV> {
    match o {
        Some(x) => Some(x@),
        None => None,
    }
}

fn clone_opt_string(o: &Option<String>) -> (r: Option<String>)
    ensures
        r.deep_view() == o.deep_view(),
{
    match o {
        Some(s) => Some(s.clone()),
        None => None,
    }
}

fn mk_row_exec(
    rec: &Recipe,
    ing: Option<&RecipeIngredient>,
    st: Option<&RecipeStep>,
    nt: Option<&RecipeNote>,
) -> (row: JoinRow)
    ensures
        row@ == mk_row(rec@, opt_ing_v(ing), opt_step_v(st), (match nt {
            Some(x) => Some(x@),
            None => None,
        })),
{
    let row = JoinRow {
        recipe_id: match rec.recipe_id {
            Some(id) => id,
            None => 0,
        },
        name: rec.name.clone(),
        description: clone_opt_string(&rec.description),
        prep_time_minutes: rec.prep_time_minutes,
        servings: rec.servings,
        main_photo: clone_opt_string(&rec.main_photo),
        created_at: clone_opt_string(&rec.created_at),
        updated_at: clone_opt_string(&rec.updated_at),
        ingredient_id: match ing {
            Some(x) => x.recipe_ingredient_id,
            None => None,
        },
        ingredient_name: match ing {
            Some(x) => x.ingredient_name.clone(),
            None => String::new(),
        },
        quantity: match ing {
            Some(x) => clone_opt_string(&x.quantity),
            None => None,
        },
        unit: match ing {
            Some(x) => clone_opt_string(&x.unit),
            None => None,
        },
        step_id: match st {
            Some(x) => x.step_id,
            None => None,
        },
        step_number: match st {
            Some(x) => x.step_number,
            None => 0,
        },
        instructions: match st {
            Some(x) => x.instructions.clone(),
            None => String::new(),
        },
        note_id: match nt {
            Some(x) => x.note_id,
            None => None,
        },
        note: match nt {
            Some(x) => x.note.clone(),
            None => String::new(),
        },
    };
    proof {
        assert(row@ =~~= mk_row(rec@, opt_ing_v(ing), opt_step_v(st), (match nt {
            Some(x) => Some(x@),
            None => None,
        })));
    }
    row
}

fn push_note_dim(
    out: &mut Vec<JoinRow>,
    rec: &Recipe,
    ing: Option<&RecipeIngredient>,
    st: Option<&RecipeStep>,
    nts: &Vec<RecipeNote>,
)
    ensures
        final(out).deep_view() == old(out).deep_view() + note_dim(
            rec@,
            opt_ing_v(ing),
            opt_step_v(st),
            nts.deep_view(),
        ),
{
    let ghost base = out.deep_view();
    if nts.len() == 0 {
        proof {
            assert(nts.deep_view().len() == 0);
        }
        let row = mk_row_exec(rec, ing, st, None);
        out.push(row);
        proof {
            assert(out.deep_view() =~~= base + note_dim(
                rec@,
                opt_ing_v(ing),
                opt_step_v(st),
                nts.deep_view(),
            ));
        }
    } else {
        let mut k: usize = 0;
        while k < nts.len()
            invariant
                k <= nts@.len(),
                out.deep_view() =~~= base + Seq::new(
                    k as nat,
                    |i: int| mk_row(rec@, opt_ing_v(ing), opt_step_v(st), Some(
                        nts.deep_view()[i],
                    )),
                ),
            decreases nts@.len() - k,
        {
            let row = mk_row_exec(rec, ing, st, Some(&nts[k]));
            let ghost pre = out.deep_view();
            let ghost rowv = row@;
            out.push(row);
            proof {
                assert(out.deep_view() =~~= pre.push(rowv));
                assert(nts@[k as int]@ == nts.deep_view()[k as int]);
                assert(out.deep_view() =~~= base + Seq::new(
                    (k + 1) as nat,
                    |i: int| mk_row(rec@, opt_ing_v(ing), opt_step_v(st), Some(
                        nts.deep_view()[i],
                    )),
                ));
            }
            k = k + 1;
        }
        proof {
            assert(out.deep_view() =~~= base + note_dim(
                rec@,
                opt_ing_v(ing),
                opt_step_v(st),
                nts.deep_view(),
            ));
        }
    }
}

fn push_step_dim(
    out: &mut Vec<JoinRow>,
    rec: &Recipe,
    ing: Option<&RecipeIngredient>,
    sts: &Vec<RecipeStep>,
    nts: &Vec<RecipeNote>,
)
    ensures
        final(out).deep_view() == old(out).deep_view() + step_dim(
            rec@,
            opt_ing_v(ing),
            sts.deep_view(),
            nts.deep_view(),
        ),
{
    let ghost base = out.deep_view();
    if sts.len() == 0 {
        proof {
            assert(sts.deep_view().len() == 0);
        }
        push_note_dim(out, rec, ing, None, nts);
    } else {
        let mut k: usize = 0;
        proof {
            assert(sts.deep_view().take(0) =~= Seq::<StepV>::empty());
            assert(base + Seq::<JoinRowV>::empty() =~= base);
        }
        while k < sts.len()
            invariant
                k <= sts@.len(),
                out.deep_view() =~~= base + steps_block(
                    rec@,
                    opt_ing_v(ing),
                    sts.deep_view().take(k as int),
                    nts.deep_view(),
                ),
            decreases sts@.len() - k,
        {
            push_note_dim(out, rec, ing, Some(&sts[k]), nts);
            proof {
                let sv = sts.deep_view();
                assert(sts@[k as int]@ == sv[k as int]);
                assert(sv.take(k + 1 as int).drop_last() =~= sv.take(k as int));
                assert(sv.take(k + 1 as int).last() == sv[k as int]);
                assert(out.deep_view() =~~= base + steps_block(
                    rec@,
                    opt_ing_v(ing),
                    sv.take(k + 1 as int),
                    nts.deep_view(),
                ));
            }
            k = k + 1;
        }
        proof {
            assert(sts.deep_view().take(sts@.len() as int) =~= sts.deep_view());
        }
    }
}

fn push_recipe_rows(
    out: &mut Vec<JoinRow>,
    rec: &Recipe,
    ings: &Vec<RecipeIngredient>,
    sts: &Vec<RecipeStep>,
    nts: &Vec<RecipeNote>,
)
    ensures
        final(out).deep_view() == old(out).deep_view() + recipe_rows(
            rec@,
            ings.deep_view(),
            sts.deep_view(),
            nts.deep_view(),
        ),
{
    let ghost base = out.deep_view();
    if ings.len() == 0 {
        proof {
            assert(ings.deep_view().len() == 0);
        }
        push_step_dim(out, rec, None, sts, nts);
    } else {
        let mut k: usize = 0;
        proof {
            assert(ings.deep_view().take(0) =~= Seq::<IngredientV>::empty());
            assert(base + Seq::<JoinRowV>::empty() =~= base);
        }
        while k < ings.len()
            invariant
                k <= ings@.len(),
                out.deep_view() =~~= base + ings_block(
                    rec@,
                    ings.deep_view().take(k as int),
                    sts.deep_view(),
                    nts.deep_view(),
                ),
            decreases ings@.len() - k,
        {
            push_step_dim(out, rec, Some(&ings[k]), sts, nts);
            proof {
                let iv = ings.deep_view();
                assert(ings@[k as int]@ == iv[k as int]);
                assert(iv.take(k + 1 as int).drop_last() =~= iv.take(k as int));
                assert(iv.take(k + 1 as int).last() == iv[k as int]);
                assert(out.deep_view() =~~= base + ings_block(
                    rec@,
                    iv.take(k + 1 as int),
                    sts.deep_view(),
                    nts.deep_view(),
                ));
            }
            k = k + 1;
        }
        proof {
            assert(ings.deep_view().take(ings@.len() as int) =~= ings.deep_view());
        }
    }
}

fn ingredients_of_exec(v: &Vec<RecipeIngredient>, pid: i32) -> (r: Vec<RecipeIngredient>)
    ensures
        r.deep_view() == ings_of(v.deep_view(), pid),
{
    let mut out: Vec<RecipeIngredient> = Vec::new();
    let mut k: usize = 0;
    proof {
        assert(v.deep_view().take(0) =~= Seq::<IngredientV>::empty());
        assert(out.deep_view() =~= Seq::<IngredientV>::empty());
    }
    while k < v.len()
        invariant
            k <= v@.len(),
            out.deep_view() =~~= ings_of(v.deep_view().take(k as int), pid),
        decreases v@.len() - k,
    {
        let ghost vv = v.deep_view();
        proof {
            assert(v@[k as int]@ == vv[k as int]);
            assert(vv.take(k + 1 as int).drop_last() =~= vv.take(k as int));
            assert(vv.take(k + 1 as int).last() == vv[k as int]);
        }
        if v[k].recipe_id == pid {
            let x = RecipeIngredient {
                recipe_ingredient_id: v[k].recipe_ingredient_id,
                recipe_id: v[k].recipe_id,
                ingredient_name: v[k].ingredient_name.clone(),
                quantity: clone_opt_string(&v[k].quantity),
                unit: clone_opt_string(&v[k].unit),
                created_at: clone_opt_string(&v[k].created_at),
                updated_at: clone_opt_string(&v[k].updated_at),
            };
            proof {
                assert(x@ =~~= vv[k as int]);
            }
            out.push(x);
        }
        proof {
            assert(out.deep_view() =~~= ings_of(vv.take(k + 1 as int), pid));
        }
        k = k + 1;
    }
    proof {
        assert(v.deep_view().take(v@.len() as int) =~= v.deep_view());
    }
    out
}

fn steps_of_exec(v: &Vec<RecipeStep>, pid: i32) -> (r: Vec<RecipeStep>)
    ensures
        r.deep_view() == steps_of(v.deep_view(), pid),
{
    let mut out: Vec<RecipeStep> = Vec::new();
    let mut k: usize = 0;
    proof {
        assert(v.deep_view().take(0) =~= Seq::<StepV>::empty());
        assert(out.deep_view() =~= Seq::<StepV>::empty());
    }
    while k < v.len()
        invariant
            k <= v@.len(),
            out.deep_view() =~~= steps_of(v.deep_view().take(k as int), pid),
        decreases v@.len() - k,
    {
        let ghost vv = v.deep_view();
        proof {
            assert(v@[k as int]@ == vv[k as int]);
            assert(vv.take(k + 1 as int).drop_last() =~= vv.take(k as int));
            assert(vv.take(k + 1 as int).last() == vv[k as int]);
        }
        if v[k].recipe_id == pid {
            let x = RecipeStep {
                step_id: v[k].step_id,
                recipe_id: v[k].recipe_id,
                step_number: v[k].step_number,
                instructions: v[k].instructions.clone(),
                created_at: clone_opt_string(&v[k].created_at),
                updated_at: clone_opt_string(&v[k].updated_at),
            };
            proof {
                assert(x@ =~~= vv[k as int]);
            }
            out.push(x);
        }
        proof {
            assert(out.deep_view() =~~= steps_of(vv.take(k + 1 as int), pid));
        }
        k = k + 1;
    }
    proof {
        assert(v.deep_view().take(v@.len() as int) =~= v.deep_view());
    }
    out
}

fn notes_of_exec(v: &Vec<RecipeNote>, pid: i32) -> (r: Vec<RecipeNote>)
    ensures
        r.deep_view() == notes_of(v.deep_view(), pid),
{
    let mut out: Vec<RecipeNote> = Vec::new();
    let mut k: usize = 0;
    proof {
        assert(v.deep_view().take(0) =~= Seq::<NoteV>::empty());
        assert(out.deep_view() =~= Seq::<NoteV>::empty());
    }
    while k < v.len()
        invariant
            k <= v@.len(),
            out.deep_view() =~~= notes_of(v.deep_view().take(k as int), pid),
        decreases v@.len() - k,
    {
        let ghost vv = v.deep_view();
        proof {
            assert(v@[k as int]@ == vv[k as int]);
            assert(vv.take(k + 1 as int).drop_last() =~= vv.take(k as int));
            assert(vv.take(k + 1 as int).last() == vv[k as int]);
        }
        if v[k].recipe_id == pid {
            let x = RecipeNote {
                note_id: v[k].note_id,
                recipe_id: v[k].recipe_id,
                note: v[k].note.clone(),
                created_at: clone_opt_string(&v[k].created_at),
                updated_at: clone_opt_string(&v[k].updated_at),
            };
            proof {
                assert(x@ =~~= vv[k as int]);
            }
            out.push(x);
        }
        proof {
            assert(out.deep_view() =~~= notes_of(vv.take(k + 1 as int), pid));
        }
        k = k + 1;
    }
    proof {
        assert(v.deep_view().take(v@.len() as int) =~= v.deep_view());
    }
    out
}

impl Store {
    /// The denormalized row stream of the whole store: for each recipe,
    /// the cartesian expansion of its children with left-join padding.
    pub fn join_rows(&self) -> (r: Vec<JoinRow>)
        ensures
            r.deep_view() == join_store(self@),
    {
        let ghost sv = self@;
        let mut out: Vec<JoinRow> = Vec::new();
        let mut k: usize = 0;
        proof {
            assert(out.deep_view() =~= Seq::<JoinRowV>::empty());
        }
        while k < self.recipes.len()
            invariant
                k <= self.recipes@.len(),
                sv == self@,
                out.deep_view() =~~= store_rows(sv, k as int),
            decreases self.recipes@.len() - k,
        {
            let rec = &self.recipes[k];
            proof {
                assert(self.recipes@[k as int]@ == sv.recipes[k as int]);
            }
            let pid = match rec.recipe_id {
                Some(id) => id,
                None => 0,
            };
            proof {
                assert(pid == pid_of(sv.recipes[k as int]));
            }
            let ings = ingredients_of_exec(&self.ingredients, pid);
            let sts = steps_of_exec(&self.steps, pid);
            let nts = notes_of_exec(&self.notes, pid);
            push_recipe_rows(&mut out, rec, &ings, &sts, &nts);
            proof {
                assert(out.deep_view() =~~= store_rows(sv, k + 1 as int));
            }
            k = k + 1;
        }
        out
    }

    /// The aggregate query: every recipe, or one recipe by identifier.
    /// Without a filter an empty store yields an empty collection, not an
    /// error; with a filter, an identifier with no aggregated recipe is
    /// NotFound.
    #[verifier::loop_isolation(false)]
    pub fn get_full_recipes(&self, recipe_id: Option<i32>) -> (r: Result<Vec<FullRecipe>, Error>)
        ensures
            (match recipe_id {
                None => r matches Ok(v) && v.deep_view() == aggregate_spec(join_store(self@)),
                Some(id) => {
                    let agg = aggregate_spec(join_store(self@));
                    if exists|k: int|
                        0 <= k < agg.len() && (#[trigger] agg[k]).recipe_id == Some(id) {
                        r matches Ok(v) && exists|k: int|
                            0 <= k < agg.len() && (#[trigger] agg[k]).recipe_id == Some(id)
                                && v.deep_view() == seq![agg[k]]
                    } else {
                        r matches Err(e) && e is NotFound
                    }
                },
            }),
    {
        let rows = self.join_rows();
        let mut all = aggregate_rows(&rows);
        let ghost agg = aggregate_spec(join_store(self@));
        match recipe_id {
            None => Ok(all),
            Some(id) => {
                let mut k: usize = 0;
                while k < all.len()
                    invariant
                        k <= all@.len(),
                        all.deep_view() == agg,
                        forall|i: int|
                            0 <= i < k as int ==> (#[trigger] agg[i]).recipe_id != Some(id),
                    decreases all@.len() - k,
                {
                    let hit = match all[k].recipe_id {
                        Some(x) => x == id,
                        None => false,
                    };
                    proof {
                        assert(all@[k as int]@ == agg[k as int]);
                    }
                    if hit {
                        proof {
                            assert(agg[k as int].recipe_id == Some(id));
                        }
                        let found = all.remove(k);
                        let mut one: Vec<FullRecipe> = Vec::new();
                        one.push(found);
                        proof {
                            assert(found@ == agg[k as int]);
                            assert(one.deep_view() =~= seq![agg[k as int]]);
                            assert(exists|kk: int|
                                0 <= kk < agg.len() && (#[trigger] agg[kk]).recipe_id == Some(id));
                            assert(exists|kk: int|
                                0 <= kk < agg.len() && (#[trigger] agg[kk]).recipe_id == Some(id)
                                    && one.deep_view() == seq![agg[kk]]);
                        }
                        return Ok(one);
                    }
                    k = k + 1;
                }
                Err(Error::NotFound)
            },
        }
    }
}

// ---------------------------------------------------------------------------
// The bulk writer
// ---------------------------------------------------------------------------

/// A document's parent columns, as a recipe row to insert.
pub open spec fn parent_of(d: FullRecipeV) -> RecipeV {
    RecipeV {
        recipe_id: d.recipe_id,
        name: d.name,
        description: d.description,
        prep_time_minutes: d.prep_time_minutes,
        servings: d.servings,
        main_photo: d.main_photo,
        created_at: d.created_at,
        updated_at: d.updated_at,
    }
}

/// Inserting a document's ingredients one by one, each rebound to the new
/// parent identifier `pid`; stops at identifier exhaustion.
pub open spec fn ings_apply(s: StoreV, pid: i32, l: Seq<IngredientV>) -> (StoreV, bool)
    decreases l.len(),
{
    if l.len() == 0 {
        (s, true)
    } else if s.next_ingredient_id == i32::MAX {
        (s, false)
    } else {
        ings_apply(add_ingredient_s(s, IngredientV { recipe_id: pid, ..l[0] }), pid, l.drop_first())
    }
}

pub open spec fn steps_apply(s: StoreV, pid: i32, l: Seq<StepV>) -> (StoreV, bool)
    decreases l.len(),
{
    if l.len() == 0 {
        (s, true)
    } else if s.next_step_id == i32::MAX {
        (s, false)
    } else {
        steps_apply(add_step_s(s, StepV { recipe_id: pid, ..l[0] }), pid, l.drop_first())
    }
}

pub open spec fn notes_apply(s: StoreV, pid: i32, l: Seq<NoteV>) -> (StoreV, bool)
    decreases l.len(),
{
    if l.len() == 0 {
        (s, true)
    } else if s.next_note_id == i32::MAX {
        (s, false)
    } else {
        notes_apply(add_note_s(s, NoteV { recipe_id: pid, ..l[0] }), pid, l.drop_first())
    }
}

/// Inserting one document: the parent first, then its children bound to
/// the freshly assigned parent identifier.  A failure leaves the rows
/// already written (there is no enclosing transaction).
pub open spec fn doc_apply(s: StoreV, d: FullRecipeV) -> (StoreV, bool) {
    if s.next_recipe_id == i32::MAX {
        (s, false)
    } else {
        let pid = s.next_recipe_id;
        let s1 = add_recipe_s(s, parent_of(d));
        let r2 = ings_apply(s1, pid, d.ingredients);
        if !r2.1 {
            (r2.0, false)
        } else {
            let r3 = steps_apply(r2.0, pid, d.steps);
            if !r3.1 {
                (r3.0, false)
            } else {
                notes_apply(r3.0, pid, d.notes)
            }
        }
    }
}

/// Inserting a document sequence in order; a failure aborts the rest but
/// keeps every row already written.
pub open spec fn bulk_apply(s: StoreV, docs: Seq<FullRecipeV>) -> (StoreV, bool)
    decreases docs.len(),
{
    if docs.len() == 0 {
        (s, true)
    } else {
        let r0 = doc_apply(s, docs[0]);
        if !r0.1 {
            (r0.0, false)
        } else {
            bulk_apply(r0.0, docs.drop_first())
        }
    }
}

impl Store {
    /// Inserts one imported document: the parent row first, then each
    /// child bound to the new parent identifier.  Every identifier is
    /// assigned by the store; the document's own identifiers are ignored.
    #[verifier::loop_isolation(false)]
    fn insert_one(&mut self, doc: &FullRecipe) -> (r: Result<(), Error>)
        requires
            wf(old(self)@),
        ensures
            wf(final(self)@),
            final(self)@ == doc_apply(old(self)@, doc@).0,
            (r is Ok) == doc_apply(old(self)@, doc@).1,
            r matches Err(e) ==> e is Storage,
    {
        let ghost s0 = self@;
        let parent = Recipe {
            recipe_id: doc.recipe_id,
            name: doc.name.clone(),
            description: clone_opt_string(&doc.description),
            prep_time_minutes: doc.prep_time_minutes,
            servings: doc.servings,
            main_photo: clone_opt_string(&doc.main_photo),
            created_at: clone_opt_string(&doc.created_at),
            updated_at: clone_opt_string(&doc.updated_at),
        };
        proof {
            assert(parent@ =~~= parent_of(doc@));
        }
        let pid = match self.add_recipe(parent) {
            Ok(id) => id,
            Err(e) => {
                return Err(e);
            },
        };
        proof {
            assert(self@ == add_recipe_s(s0, parent_of(doc@)));
        }
        let ghost s1 = self@;
        let ghost iv = doc@.ingredients;
        let mut k: usize = 0;
        proof {
            assert(iv.skip(0) =~= iv);
        }
        while k < doc.ingredients.len()
            invariant
                wf(self@),
                k <= doc.ingredients@.len(),
                iv == doc@.ingredients,
                pid == s0.next_recipe_id,
                s1 == add_recipe_s(s0, parent_of(doc@)),
                s0.next_recipe_id < i32::MAX,
                ings_apply(s1, pid, iv) == ings_apply(self@, pid, iv.skip(k as int)),
            decreases doc.ingredients@.len() - k,
        {
            proof {
                assert(doc.ingredients@[k as int]@ == iv[k as int]);
                assert(iv.skip(k as int)[0] == iv[k as int]);
                assert(iv.skip(k as int).drop_first() =~= iv.skip(k + 1 as int));
            }
            let item = &doc.ingredients[k];
            let x = RecipeIngredient {
                recipe_ingredient_id: item.recipe_ingredient_id,
                recipe_id: pid,
                ingredient_name: item.ingredient_name.clone(),
                quantity: clone_opt_string(&item.quantity),
                unit: clone_opt_string(&item.unit),
                created_at: clone_opt_string(&item.created_at),
                updated_at: clone_opt_string(&item.updated_at),
            };
            proof {
                assert(x@ =~~= (IngredientV { recipe_id: pid, ..iv[k as int] }));
            }
            match self.add_ingredient(x) {
                Ok(_) => {},
                Err(e) => {
                    return Err(e);
                },
            }
            k = k + 1;
        }
        proof {
            assert(iv.skip(iv.len() as int).len() == 0);
            assert(ings_apply(s1, pid, iv) == (self@, true));
        }
        let ghost s2 = self@;
        let ghost tv = doc@.steps;
        let mut k: usize = 0;
        proof {
            assert(tv.skip(0) =~= tv);
        }
        while k < doc.steps.len()
            invariant
                wf(self@),
                k <= doc.steps@.len(),
                tv == doc@.steps,
                steps_apply(s2, pid, tv) == steps_apply(self@, pid, tv.skip(k as int)),
            decreases doc.steps@.len() - k,
        {
            proof {
                assert(doc.steps@[k as int]@ == tv[k as int]);
                assert(tv.skip(k as int)[0] == tv[k as int]);
                assert(tv.skip(k as int).drop_first() =~= tv.skip(k + 1 as int));
            }
            let item = &doc.steps[k];
            let x = RecipeStep {
                step_id: item.step_id,
                recipe_id: pid,
                step_number: item.step_number,
                instructions: item.instructions.clone(),
                created_at: clone_opt_string(&item.created_at),
                updated_at: clone_opt_string(&item.updated_at),
            };
            proof {
                assert(x@ =~~= (StepV { recipe_id: pid, ..tv[k as int] }));
            }
            match self.add_step(x) {
                Ok(_) => {},
                Err(e) => {
                    return Err(e);
                },
            }
            k = k + 1;
        }
        proof {
            assert(tv.skip(tv.len() as int).len() == 0);
            assert(steps_apply(s2, pid, tv) == (self@, true));
        }
        let ghost s3 = self@;
        let ghost nv = doc@.notes;
        let mut k: usize = 0;
        proof {
            assert(nv.skip(0) =~= nv);
        }
        while k < doc.notes.len()
            invariant
                wf(self@),
                k <= doc.notes@.len(),
                nv == doc@.notes,
                notes_apply(s3, pid, nv) == notes_apply(self@, pid, nv.skip(k as int)),
            decreases doc.notes@.len() - k,
        {
            proof {
                assert(doc.notes@[k as int]@ == nv[k as int]);
                assert(nv.skip(k as int)[0] == nv[k as int]);
                assert(nv.skip(k as int).drop_first() =~= nv.skip(k + 1 as int));
            }
            let item = &doc.notes[k];
            let x = RecipeNote {
                note_id: item.note_id,
                recipe_id: pid,
                note: item.note.clone(),
                created_at: clone_opt_string(&item.created_at),
                updated_at: clone_opt_string(&item.updated_at),
            };
            proof {
                assert(x@ =~~= (NoteV { recipe_id: pid, ..nv[k as int] }));
            }
            match self.add_note(x) {
                Ok(_) => {},
                Err(e) => {
                    return Err(e);
                },
            }
            k = k + 1;
        }
        proof {
            assert(nv.skip(nv.len() as int).len() == 0);
            assert(notes_apply(s3, pid, nv) == (self@, true));
        }
        Ok(())
    }

    /// The bulk writer: persists each document as a brand-new recipe with
    /// its children, in order, never matching or merging with existing
    /// rows.  A failed insert aborts the rest of the batch; documents
    /// already written stay (each insert commits on its own).
    #[verifier::loop_isolation(false)]
    pub fn insert_full_recipes(&mut self, recipes: &Vec<FullRecipe>) -> (r: Result<(), Error>)
        requires
            wf(old(self)@),
        ensures
            wf(final(self)@),
            final(self)@ == bulk_apply(old(self)@, recipes.deep_view()).0,
            (r is Ok) == bulk_apply(old(self)@, recipes.deep_view()).1,
            r matches Err(e) ==> e is Storage,
    {
        let ghost s0 = self@;
        let ghost dv = recipes.deep_view();
        let mut k: usize = 0;
        proof {
            assert(dv.skip(0) =~= dv);
        }
        while k < recipes.len()
            invariant
                wf(self@),
                k <= recipes@.len(),
                dv == recipes.deep_view(),
                bulk_apply(s0, dv) == bulk_apply(self@, dv.skip(k as int)),
            decreases recipes@.len() - k,
        {
            proof {
                assert(recipes@[k as int]@ == dv[k as int]);
                assert(dv.skip(k as int)[0] == dv[k as int]);
                assert(dv.skip(k as int).drop_first() =~= dv.skip(k + 1 as int));
            }
            let ghost pre = self@;
            match self.insert_one(&recipes[k]) {
                Ok(_) => {
                    proof {
                        assert(self@ == doc_apply(pre, dv[k as int]).0);
                        assert(doc_apply(pre, dv[k as int]).1);
                        assert(bulk_apply(pre, dv.skip(k as int)) == bulk_apply(
                            self@,
                            dv.skip(k + 1 as int),
                        ));
                    }
                },
                Err(e) => {
                    proof {
                        assert(self@ == doc_apply(pre, dv[k as int]).0);
                        assert(!doc_apply(pre, dv[k as int]).1);
                        assert(bulk_apply(pre, dv.skip(k as int)) == (self@, false));
                        assert(bulk_apply(s0, dv) == (self@, false));
                    }
                    return Err(e);
                },
            }
            k = k + 1;
        }
        proof {
            assert(dv.skip(dv.len() as int).len() == 0);
        }
        Ok(())
    }
}

// ---------------------------------------------------------------------------
// Identifier-remap law
// ---------------------------------------------------------------------------

/// What "does not corrupt existing data" means of one state change:
/// every row present before is still there, unchanged, at its place.
pub open spec fn preserves_rows(s: StoreV, t: StoreV) -> bool {
    &&& s.recipes.len() <= t.recipes.len()
    &&& forall|i: int| 0 <= i < s.recipes.len() ==> t.recipes[i] == s.recipes[i]
    &&& s.ingredients.len() <= t.ingredients.len()
    &&& forall|i: int| 0 <= i < s.ingredients.len() ==> t.ingredients[i] == s.ingredients[i]
    &&& s.steps.len() <= t.steps.len()
    &&& forall|i: int| 0 <= i < s.steps.len() ==> t.steps[i] == s.steps[i]
    &&& s.notes.len() <= t.notes.len()
    &&& forall|i: int| 0 <= i < s.notes.len() ==> t.notes[i] == s.notes[i]
}

proof fn lemma_ings_apply_preserves(s: StoreV, pid: i32, l: Seq<IngredientV>)
    ensures
        preserves_rows(s, ings_apply(s, pid, l).0),
    decreases l.len(),
{
    if l.len() > 0 && s.next_ingredient_id != i32::MAX {
        lemma_ings_apply_preserves(
            add_ingredient_s(s, IngredientV { recipe_id: pid, ..l[0] }),
            pid,
            l.drop_first(),
        );
    }
}

proof fn lemma_steps_apply_preserves(s: StoreV, pid: i32, l: Seq<StepV>)
    ensures
        preserves_rows(s, steps_apply(s, pid, l).0),
    decreases l.len(),
{
    if l.len() > 0 && s.next_step_id != i32::MAX {
        lemma_steps_apply_preserves(
            add_step_s(s, StepV { recipe_id: pid, ..l[0] }),
            pid,
            l.drop_first(),
        );
    }
}

proof fn lemma_notes_apply_preserves(s: StoreV, pid: i32, l: Seq<NoteV>)
    ensures
        preserves_rows(s, notes_apply(s, pid, l).0),
    decreases l.len(),
{
    if l.len() > 0 && s.next_note_id != i32::MAX {
        lemma_notes_apply_preserves(
            add_note_s(s, NoteV { recipe_id: pid, ..l[0] }),
            pid,
            l.drop_first(),
        );
    }
}

proof fn lemma_doc_apply_preserves(s: StoreV, d: FullRecipeV)
    ensures
        preserves_rows(s, doc_apply(s, d).0),
{
    if s.next_recipe_id != i32::MAX {
        let pid = s.next_recipe_id;
        let s1 = add_recipe_s(s, parent_of(d));
        lemma_ings_apply_preserves(s1, pid, d.ingredients);
        let r2 = ings_apply(s1, pid, d.ingredients);
        if r2.1 {
            lemma_steps_apply_preserves(r2.0, pid, d.steps);
            let r3 = steps_apply(r2.0, pid, d.steps);
            if r3.1 {
                lemma_notes_apply_preserves(r3.0, pid, d.notes);
            }
        }
    }
}

/// Identifier-remap law: a bulk import only ever appends rows, whatever
/// identifiers the imported documents carry.  Every row present before
/// the import is still there, unchanged, at its place; new identifiers
/// come from the store's counters, never from the documents.
pub proof fn lemma_bulk_insert_preserves(s: StoreV, docs: Seq<FullRecipeV>)
    ensures
        preserves_rows(s, bulk_apply(s, docs).0),
    decreases docs.len(),
{
    if docs.len() > 0 {
        lemma_doc_apply_preserves(s, docs[0]);
        let r0 = doc_apply(s, docs[0]);
        if r0.1 {
            lemma_bulk_insert_preserves(r0.0, docs.drop_first());
        }
    }
}

// ---------------------------------------------------------------------------
// The aggregate lists exactly the store's recipes
// ---------------------------------------------------------------------------

/// The parent-identifier column of each recipe row, in table order.
pub open spec fn recipe_pids(rs: Seq<RecipeV>) -> Seq<i32> {
    Seq::new(rs.len(), |i: int| pid_of(rs[i]))
}

proof fn lemma_note_dim_pid(r: RecipeV, ing: Option<IngredientV>, st: Option<StepV>, nts: Seq<NoteV>)
    ensures
        note_dim(r, ing, st, nts).len() >= 1,
        forall|i: int|
            0 <= i < note_dim(r, ing, st, nts).len() ==> (#[trigger] note_dim(
                r,
                ing,
                st,
                nts,
            )[i]).recipe_id == pid_of(r),
{
}

proof fn lemma_steps_block_pid(
    r: RecipeV,
    ing: Option<IngredientV>,
    sts: Seq<StepV>,
    nts: Seq<NoteV>,
)
    ensures
        sts.len() >= 1 ==> steps_block(r, ing, sts, nts).len() >= 1,
        forall|i: int|
            0 <= i < steps_block(r, ing, sts, nts).len() ==> (#[trigger] steps_block(
                r,
                ing,
                sts,
                nts,
            )[i]).recipe_id == pid_of(r),
    decreases sts.len(),
{
    if sts.len() > 0 {
        lemma_steps_block_pid(r, ing, sts.drop_last(), nts);
        lemma_note_dim_pid(r, ing, Some(sts.last()), nts);
    }
}

proof fn lemma_step_dim_pid(r: RecipeV, ing: Option<IngredientV>, sts: Seq<StepV>, nts: Seq<NoteV>)
    ensures
        step_dim(r, ing, sts, nts).len() >= 1,
        forall|i: int|
            0 <= i < step_dim(r, ing, sts, nts).len() ==> (#[trigger] step_dim(
                r,
                ing,
                sts,
                nts,
            )[i]).recipe_id == pid_of(r),
{
    if sts.len() == 0 {
        lemma_note_dim_pid(r, ing, None, nts);
    } else {
        lemma_steps_block_pid(r, ing, sts, nts);
    }
}

proof fn lemma_ings_block_pid(r: RecipeV, ings: Seq<IngredientV>, sts: Seq<StepV>, nts: Seq<NoteV>)
    ensures
        ings.len() >= 1 ==> ings_block(r, ings, sts, nts).len() >= 1,
        forall|i: int|
            0 <= i < ings_block(r, ings, sts, nts).len() ==> (#[trigger] ings_block(
                r,
                ings,
                sts,
                nts,
            )[i]).recipe_id == pid_of(r),
    decreases ings.len(),
{
    if ings.len() > 0 {
        lemma_ings_block_pid(r, ings.drop_last(), sts, nts);
        lemma_step_dim_pid(r, Some(ings.last()), sts, nts);
    }
}

/// Every recipe contributes at least one row, and each of its rows
/// carries its identifier.
proof fn lemma_recipe_rows_pid(
    r: RecipeV,
    ings: Seq<IngredientV>,
    sts: Seq<StepV>,
    nts: Seq<NoteV>,
)
    ensures
        recipe_rows(r, ings, sts, nts).len() >= 1,
        forall|i: int|
            0 <= i < recipe_rows(r, ings, sts, nts).len() ==> (#[trigger] recipe_rows(
                r,
                ings,
                sts,
                nts,
            )[i]).recipe_id == pid_of(r),
{
    if ings.len() == 0 {
        lemma_step_dim_pid(r, None, sts, nts);
    } else {
        lemma_ings_block_pid(r, ings, sts, nts);
    }
}

/// Appending a nonempty block of rows that all carry one recipe
/// identifier adds exactly that identifier to the parent list, once.
proof fn lemma_parent_ids_block(a: Seq<JoinRowV>, b: Seq<JoinRowV>, pid: i32)
    requires
        b.len() >= 1,
        forall|i: int| 0 <= i < b.len() ==> (#[trigger] b[i]).recipe_id == pid,
    ensures
        crate::aggregate::parent_ids(a + b) == (if crate::aggregate::parent_ids(a).contains(pid) {
            crate::aggregate::parent_ids(a)
        } else {
            crate::aggregate::parent_ids(a).push(pid)
        }),
    decreases b.len(),
{
    let whole = a + b;
    assert(whole.drop_last() =~= a + b.drop_last());
    assert(whole.last() == b[b.len() - 1]);
    assert(whole.last().recipe_id == pid);
    if b.len() == 1 {
        assert(a + b.drop_last() =~= a);
    } else {
        lemma_parent_ids_block(a, b.drop_last(), pid);
        let pa = crate::aggregate::parent_ids(a);
        let prev = crate::aggregate::parent_ids(a + b.drop_last());
        if pa.contains(pid) {
            assert(prev == pa);
        } else {
            assert(prev == pa.push(pid));
            assert(prev[prev.len() - 1] == pid);
            assert(prev.contains(pid));
        }
    }
}

proof fn lemma_store_rows_parent_ids(s: StoreV, n: int)
    requires
        wf(s),
        0 <= n <= s.recipes.len(),
    ensures
        crate::aggregate::parent_ids(store_rows(s, n)) == recipe_pids(s.recipes.take(n)),
    decreases n,
{
    if n == 0 {
        assert(recipe_pids(s.recipes.take(0)) =~= Seq::<i32>::empty());
    } else {
        lemma_store_rows_parent_ids(s, n - 1);
        let r = s.recipes[n - 1];
        let pid = pid_of(r);
        let block = recipe_rows(
            r,
            ings_of(s.ingredients, pid),
            steps_of(s.steps, pid),
            notes_of(s.notes, pid),
        );
        lemma_recipe_rows_pid(
            r,
            ings_of(s.ingredients, pid),
            steps_of(s.steps, pid),
            notes_of(s.notes, pid),
        );
        lemma_parent_ids_block(store_rows(s, n - 1), block, pid);
        let prev_pids = recipe_pids(s.recipes.take(n - 1));
        // A well-formed store has distinct recipe identifiers, so this
        // recipe's identifier is not among the earlier ones.
        if prev_pids.contains(pid) {
            let j = choose|j: int| 0 <= j < prev_pids.len() && prev_pids[j] == pid;
            assert(prev_pids[j] == pid_of(s.recipes.take(n - 1)[j]));
            assert(s.recipes.take(n - 1)[j] == s.recipes[j]);
            assert(s.recipes[j].recipe_id is Some);
            assert(s.recipes[n - 1].recipe_id is Some);
            assert(s.recipes[j].recipe_id == Some(pid));
            assert(s.recipes[n - 1].recipe_id == Some(pid));
            assert(false);
        }
        assert(recipe_pids(s.recipes.take(n)) =~= prev_pids.push(pid));
    }
}

// ---------------------------------------------------------------------------
// The aggregate's children are the store's child rows
// ---------------------------------------------------------------------------

/// The ingredient record a join row carries for table row `x` of recipe
/// `r`: the ingredient's own columns, with the parent's timestamps (the
/// join selects no child timestamp columns).
pub open spec fn join_ingredient(r: RecipeV, x: IngredientV) -> IngredientV {
    IngredientV { recipe_id: pid_of(r), created_at: r.created_at, updated_at: r.updated_at, ..x }
}

/// Appending rows of another recipe leaves a recipe's collector alone.
proof fn lemma_collect_app_other(a: Seq<JoinRowV>, b: Seq<JoinRowV>, pid: i32)
    requires
        forall|i: int| 0 <= i < b.len() ==> (#[trigger] b[i]).recipe_id != pid,
    ensures
        crate::aggregate::collect_ingredients(a + b, pid) == crate::aggregate::collect_ingredients(
            a,
            pid,
        ),
    decreases b.len(),
{
    if b.len() == 0 {
        assert(a + b =~= a);
    } else {
        assert((a + b).drop_last() =~= a + b.drop_last());
        assert((a + b).last() == b[b.len() - 1]);
        lemma_collect_app_other(a, b.drop_last(), pid);
    }
}

/// A recipe's collector ignores rows that carry no real ingredient.
proof fn lemma_collect_app_no_ingredient(a: Seq<JoinRowV>, b: Seq<JoinRowV>, pid: i32)
    requires
        forall|i: int| 0 <= i < b.len() ==> !crate::aggregate::row_has_ingredient(#[trigger] b[i]),
    ensures
        crate::aggregate::collect_ingredients(a + b, pid) == crate::aggregate::collect_ingredients(
            a,
            pid,
        ),
    decreases b.len(),
{
    if b.len() == 0 {
        assert(a + b =~= a);
    } else {
        assert((a + b).drop_last() =~= a + b.drop_last());
        assert((a + b).last() == b[b.len() - 1]);
        lemma_collect_app_no_ingredient(a, b.drop_last(), pid);
    }
}

/// Every row of one ingredient's sub-block carries that ingredient.
proof fn lemma_note_dim_ing(r: RecipeV, ing: IngredientV, st: Option<StepV>, nts: Seq<NoteV>)
    ensures
        forall|i: int|
            0 <= i < note_dim(r, Some(ing), st, nts).len() ==> (#[trigger] note_dim(
                r,
                Some(ing),
                st,
                nts,
            )[i]).ingredient_id == ing.recipe_ingredient_id && crate::aggregate::row_ingredient(
                note_dim(r, Some(ing), st, nts)[i],
            ) == join_ingredient(r, ing),
{
    assert forall|i: int| 0 <= i < note_dim(r, Some(ing), st, nts).len() implies (
    #[trigger] note_dim(r, Some(ing), st, nts)[i]).ingredient_id == ing.recipe_ingredient_id
        && crate::aggregate::row_ingredient(note_dim(r, Some(ing), st, nts)[i])
        == join_ingredient(r, ing) by {
        assert(crate::aggregate::row_ingredient(note_dim(r, Some(ing), st, nts)[i])
            =~= join_ingredient(r, ing));
    }
}

proof fn lemma_steps_block_ing(r: RecipeV, ing: IngredientV, sts: Seq<StepV>, nts: Seq<NoteV>)
    ensures
        forall|i: int|
            0 <= i < steps_block(r, Some(ing), sts, nts).len() ==> (#[trigger] steps_block(
                r,
                Some(ing),
                sts,
                nts,
            )[i]).ingredient_id == ing.recipe_ingredient_id && crate::aggregate::row_ingredient(
                steps_block(r, Some(ing), sts, nts)[i],
            ) == join_ingredient(r, ing),
    decreases sts.len(),
{
    if sts.len() > 0 {
        lemma_steps_block_ing(r, ing, sts.drop_last(), nts);
        lemma_note_dim_ing(r, ing, Some(sts.last()), nts);
    }
}

proof fn lemma_step_dim_ing(r: RecipeV, ing: IngredientV, sts: Seq<StepV>, nts: Seq<NoteV>)
    ensures
        forall|i: int|
            0 <= i < step_dim(r, Some(ing), sts, nts).len() ==> (#[trigger] step_dim(
                r,
                Some(ing),
                sts,
                nts,
            )[i]).ingredient_id == ing.recipe_ingredient_id && crate::aggregate::row_ingredient(
                step_dim(r, Some(ing), sts, nts)[i],
            ) == join_ingredient(r, ing),
{
    if sts.len() == 0 {
        lemma_note_dim_ing(r, ing, None, nts);
    } else {
        lemma_steps_block_ing(r, ing, sts, nts);
    }
}

/// The padded sub-block of a recipe without ingredients carries none.
proof fn lemma_step_dim_no_ing(r: RecipeV, sts: Seq<StepV>, nts: Seq<NoteV>)
    ensures
        forall|i: int|
            0 <= i < step_dim(r, None, sts, nts).len() ==> !crate::aggregate::row_has_ingredient(
                #[trigger] step_dim(r, None, sts, nts)[i],
            ),
    decreases sts.len(),
{
    if sts.len() > 0 {
        assert(step_dim(r, None, sts, nts) == steps_block(r, None, sts, nts));
        lemma_steps_block_no_ing(r, sts, nts);
    }
}

proof fn lemma_steps_block_no_ing(r: RecipeV, sts: Seq<StepV>, nts: Seq<NoteV>)
    ensures
        forall|i: int|
            0 <= i < steps_block(r, None, sts, nts).len()
                ==> !crate::aggregate::row_has_ingredient(
                #[trigger] steps_block(r, None, sts, nts)[i],
            ),
    decreases sts.len(),
{
    if sts.len() > 0 {
        lemma_steps_block_no_ing(r, sts.drop_last(), nts);
        let front = steps_block(r, None, sts.drop_last(), nts);
        let nd = note_dim(r, None, Some(sts.last()), nts);
        assert(forall|i: int|
            0 <= i < nd.len() ==> !crate::aggregate::row_has_ingredient(#[trigger] nd[i]));
        assert forall|i: int|
            0 <= i < steps_block(r, None, sts, nts).len()
                implies !crate::aggregate::row_has_ingredient(
            #[trigger] steps_block(r, None, sts, nts)[i],
        ) by {
            if i < front.len() {
                assert(steps_block(r, None, sts, nts)[i] == front[i]);
            } else {
                assert(steps_block(r, None, sts, nts)[i] == nd[i - front.len()]);
            }
        }
    }
}

/// Collecting over a nonempty block that repeats one ingredient adds
/// that ingredient once, unless its identifier was already gathered.
proof fn lemma_collect_const_block(
    a: Seq<JoinRowV>,
    b: Seq<JoinRowV>,
    pid: i32,
    id: Option<i32>,
    rec: IngredientV,
)
    requires
        b.len() >= 1,
        id matches Some(v) && v > 0,
        rec.recipe_ingredient_id == id,
        forall|i: int|
            (0 <= i < b.len() ==> (#[trigger] b[i]).recipe_id == pid) && (0 <= i < b.len()
                ==> b[i].ingredient_id == id) && (0 <= i < b.len()
                ==> crate::aggregate::row_ingredient(b[i]) == rec),
    ensures
        crate::aggregate::collect_ingredients(a + b, pid) == (if crate::aggregate::has_ingredient_id(
            crate::aggregate::collect_ingredients(a, pid),
            id,
        ) {
            crate::aggregate::collect_ingredients(a, pid)
        } else {
            crate::aggregate::collect_ingredients(a, pid).push(rec)
        }),
    decreases b.len(),
{
    let ca = crate::aggregate::collect_ingredients(a, pid);
    assert((a + b).drop_last() =~= a + b.drop_last());
    assert((a + b).last() == b[b.len() - 1]);
    if b.len() == 1 {
        assert(a + b.drop_last() =~= a);
        if crate::aggregate::has_ingredient_id(ca, id) {
        } else {
            assert(crate::aggregate::row_ingredient(b[0]) == rec);
        }
    } else {
        lemma_collect_const_block(a, b.drop_last(), pid, id, rec);
        let prev = crate::aggregate::collect_ingredients(a + b.drop_last(), pid);
        if crate::aggregate::has_ingredient_id(ca, id) {
            assert(prev == ca);
        } else {
            assert(prev == ca.push(rec));
            assert(prev[prev.len() - 1].recipe_ingredient_id == id);
            assert(crate::aggregate::has_ingredient_id(prev, id));
        }
    }
}

/// What the filtered child table of one recipe looks like in a
/// well-formed store: every entry is one of the table's rows, bound to
/// the recipe, with the identifiers distinct and storage-assigned.
proof fn lemma_ings_of_props(t: Seq<IngredientV>, pid: i32)
    requires
        forall|i: int|
            0 <= i < t.len() ==> (#[trigger] t[i].recipe_ingredient_id) is Some
                && t[i].recipe_ingredient_id->0 >= 1,
        forall|i: int, j: int|
            0 <= i < j < t.len() ==> t[i].recipe_ingredient_id != t[j].recipe_ingredient_id,
    ensures
        forall|i: int|
            0 <= i < ings_of(t, pid).len() ==> (#[trigger] ings_of(t, pid)[i]).recipe_id == pid
                && ings_of(t, pid)[i].recipe_ingredient_id is Some && ings_of(
                t,
                pid,
            )[i].recipe_ingredient_id->0 >= 1,
        forall|i: int, j: int|
            0 <= i < j < ings_of(t, pid).len() ==> ings_of(t, pid)[i].recipe_ingredient_id
                != ings_of(t, pid)[j].recipe_ingredient_id,
        forall|i: int|
            0 <= i < ings_of(t, pid).len() ==> exists|k: int|
                0 <= k < t.len() && (#[trigger] ings_of(t, pid)[i]) == #[trigger] t[k],
    decreases t.len(),
{
    if t.len() > 0 {
        assert(forall|i: int| 0 <= i < t.drop_last().len() ==> t.drop_last()[i] == t[i]);
        lemma_ings_of_props(t.drop_last(), pid);
        let prev = ings_of(t.drop_last(), pid);
        if t.last().recipe_id == pid {
            assert(t[t.len() - 1] == t.last());
            assert forall|i: int| 0 <= i < prev.len() implies prev[i].recipe_ingredient_id
                != t.last().recipe_ingredient_id by {
                let k = choose|k: int| 0 <= k < t.drop_last().len() && prev[i] == t.drop_last()[k];
                assert(t[k].recipe_ingredient_id != t[t.len() - 1].recipe_ingredient_id);
            }
        }
    }
}

/// Collecting over one recipe's whole ingredient block gathers exactly
/// the recipe's ingredient table, in table order, stamped by the join,
/// however often the step and note dimensions repeat each ingredient.
proof fn lemma_collect_ings_block(
    a: Seq<JoinRowV>,
    r: RecipeV,
    ings: Seq<IngredientV>,
    sts: Seq<StepV>,
    nts: Seq<NoteV>,
)
    requires
        crate::aggregate::collect_ingredients(a, pid_of(r)) == Seq::<IngredientV>::empty(),
        forall|i: int|
            0 <= i < ings.len() ==> ((#[trigger] ings[i]).recipe_ingredient_id) is Some
                && ings[i].recipe_ingredient_id->0 >= 1,
        forall|i: int, j: int|
            0 <= i < j < ings.len() ==> ings[i].recipe_ingredient_id
                != ings[j].recipe_ingredient_id,
    ensures
        crate::aggregate::collect_ingredients(a + ings_block(r, ings, sts, nts), pid_of(r))
            == Seq::new(ings.len(), |i: int| join_ingredient(r, ings[i])),
    decreases ings.len(),
{
    let pid = pid_of(r);
    if ings.len() == 0 {
        assert(a + ings_block(r, ings, sts, nts) =~= a);
        assert(Seq::new(0, |i: int| join_ingredient(r, ings[i]))
            =~= Seq::<IngredientV>::empty());
    } else {
        let front = ings.drop_last();
        let last = ings.last();
        let block = step_dim(r, Some(last), sts, nts);
        assert(a + ings_block(r, ings, sts, nts) =~= (a + ings_block(r, front, sts, nts))
            + block);
        assert(forall|i: int| 0 <= i < front.len() ==> front[i] == ings[i]);
        lemma_collect_ings_block(a, r, front, sts, nts);
        let ca = crate::aggregate::collect_ingredients(a + ings_block(r, front, sts, nts), pid);
        assert(ca == Seq::new(front.len(), |i: int| join_ingredient(r, front[i])));
        lemma_step_dim_pid(r, Some(last), sts, nts);
        lemma_step_dim_ing(r, last, sts, nts);
        lemma_collect_const_block(
            a + ings_block(r, front, sts, nts),
            block,
            pid,
            last.recipe_ingredient_id,
            join_ingredient(r, last),
        );
        assert forall|i: int| 0 <= i < ca.len() implies (#[trigger] ca[i]).recipe_ingredient_id
            != last.recipe_ingredient_id by {
            assert(ca[i] == join_ingredient(r, front[i]));
            assert(front[i].recipe_ingredient_id != ings[ings.len() - 1].recipe_ingredient_id);
        }
        assert(!crate::aggregate::has_ingredient_id(ca, last.recipe_ingredient_id));
        assert(ca.push(join_ingredient(r, last)) =~= Seq::new(
            ings.len(),
            |i: int| join_ingredient(r, ings[i]),
        ));
    }
}

/// The ingredient rows one recipe's aggregate gathers before ordering:
/// the store's filtered ingredient table, stamped by the join.
pub open spec fn table_ingredients(s: StoreV, r: RecipeV) -> Seq<IngredientV> {
    Seq::new(
        ings_of(s.ingredients, pid_of(r)).len(),
        |k: int| join_ingredient(r, ings_of(s.ingredients, pid_of(r))[k]),
    )
}

proof fn lemma_store_rows_collect(s: StoreV, n: int, j: int)
    requires
        wf(s),
        0 <= j < n <= s.recipes.len(),
    ensures
        crate::aggregate::collect_ingredients(store_rows(s, n), pid_of(s.recipes[j]))
            == table_ingredients(s, s.recipes[j]),
    decreases n,
{
    let r = s.recipes[j];
    let pid = pid_of(r);
    if n - 1 == j {
        // The rows before this recipe's block belong to other recipes.
        lemma_store_rows_parent_ids(s, j);
        if recipe_pids(s.recipes.take(j)).contains(pid) {
            let q = choose|q: int|
                0 <= q < recipe_pids(s.recipes.take(j)).len() && recipe_pids(
                    s.recipes.take(j),
                )[q] == pid;
            assert(s.recipes.take(j)[q] == s.recipes[q]);
            assert(s.recipes[q].recipe_id is Some);
            assert(s.recipes[j].recipe_id is Some);
            assert(s.recipes[q].recipe_id == Some(pid));
            assert(s.recipes[j].recipe_id == Some(pid));
            assert(false);
        }
        crate::aggregate::lemma_parent_ids_contains(store_rows(s, j), pid);
        crate::aggregate::lemma_collect_of_absent(store_rows(s, j), pid);
        let filtered = ings_of(s.ingredients, pid);
        lemma_ings_of_props(s.ingredients, pid);
        if filtered.len() == 0 {
            lemma_step_dim_no_ing(r, steps_of(s.steps, pid), notes_of(s.notes, pid));
            lemma_collect_app_no_ingredient(
                store_rows(s, j),
                step_dim(r, None, steps_of(s.steps, pid), notes_of(s.notes, pid)),
                pid,
            );
            assert(table_ingredients(s, r) =~= Seq::<IngredientV>::empty());
        } else {
            lemma_collect_ings_block(
                store_rows(s, j),
                r,
                filtered,
                steps_of(s.steps, pid),
                notes_of(s.notes, pid),
            );
        }
    } else {
        lemma_store_rows_collect(s, n - 1, j);
        let other = s.recipes[n - 1];
        let block = recipe_rows(
            other,
            ings_of(s.ingredients, pid_of(other)),
            steps_of(s.steps, pid_of(other)),
            notes_of(s.notes, pid_of(other)),
        );
        lemma_recipe_rows_pid(
            other,
            ings_of(s.ingredients, pid_of(other)),
            steps_of(s.steps, pid_of(other)),
            notes_of(s.notes, pid_of(other)),
        );
        assert(s.recipes[n - 1].recipe_id is Some);
        assert(s.recipes[j].recipe_id is Some);
        assert(s.recipes[n - 1].recipe_id != s.recipes[j].recipe_id);
        assert(pid_of(other) != pid);
        lemma_collect_app_other(store_rows(s, n - 1), block, pid);
    }
}

/// The step record a join row carries for table row `x` of recipe `r`.
pub open spec fn join_step(r: RecipeV, x: StepV) -> StepV {
    StepV { recipe_id: pid_of(r), created_at: r.created_at, updated_at: r.updated_at, ..x }
}

/// The step rows one recipe's aggregate gathers before ordering.
pub open spec fn table_steps(s: StoreV, r: RecipeV) -> Seq<StepV> {
    Seq::new(
        steps_of(s.steps, pid_of(r)).len(),
        |k: int| join_step(r, steps_of(s.steps, pid_of(r))[k]),
    )
}

proof fn lemma_collect_steps_app_other(a: Seq<JoinRowV>, b: Seq<JoinRowV>, pid: i32)
    requires
        forall|i: int| 0 <= i < b.len() ==> (#[trigger] b[i]).recipe_id != pid,
    ensures
        crate::aggregate::collect_steps(a + b, pid) == crate::aggregate::collect_steps(a, pid),
    decreases b.len(),
{
    if b.len() == 0 {
        assert(a + b =~= a);
    } else {
        assert((a + b).drop_last() =~= a + b.drop_last());
        assert((a + b).last() == b[b.len() - 1]);
        lemma_collect_steps_app_other(a, b.drop_last(), pid);
    }
}

/// Every row of one step's note dimension carries that step.
proof fn lemma_note_dim_step_cols(r: RecipeV, ing: Option<IngredientV>, st: StepV, nts: Seq<NoteV>)
    ensures
        forall|i: int|
            0 <= i < note_dim(r, ing, Some(st), nts).len() ==> (#[trigger] note_dim(
                r,
                ing,
                Some(st),
                nts,
            )[i]).step_id == st.step_id && crate::aggregate::row_step(
                note_dim(r, ing, Some(st), nts)[i],
            ) == join_step(r, st),
{
    assert forall|i: int| 0 <= i < note_dim(r, ing, Some(st), nts).len() implies (
    #[trigger] note_dim(r, ing, Some(st), nts)[i]).step_id == st.step_id
        && crate::aggregate::row_step(note_dim(r, ing, Some(st), nts)[i]) == join_step(r, st) by {
        assert(crate::aggregate::row_step(note_dim(r, ing, Some(st), nts)[i]) =~= join_step(
            r,
            st,
        ));
    }
}

/// The padded note dimension of a stepless recipe carries no step.
proof fn lemma_note_dim_no_step(r: RecipeV, ing: Option<IngredientV>, nts: Seq<NoteV>)
    ensures
        forall|i: int|
            0 <= i < note_dim(r, ing, None, nts).len() ==> !crate::aggregate::row_has_step(
                #[trigger] note_dim(r, ing, None, nts)[i],
            ),
{
}

proof fn lemma_collect_steps_const_block(
    a: Seq<JoinRowV>,
    b: Seq<JoinRowV>,
    pid: i32,
    id: Option<i32>,
    rec: StepV,
)
    requires
        b.len() >= 1,
        id matches Some(v) && v > 0,
        rec.step_id == id,
        forall|i: int|
            (0 <= i < b.len() ==> (#[trigger] b[i]).recipe_id == pid) && (0 <= i < b.len()
                ==> b[i].step_id == id) && (0 <= i < b.len() ==> crate::aggregate::row_step(b[i])
                == rec),
    ensures
        crate::aggregate::collect_steps(a + b, pid) == (if crate::aggregate::has_step_id(
            crate::aggregate::collect_steps(a, pid),
            id,
        ) {
            crate::aggregate::collect_steps(a, pid)
        } else {
            crate::aggregate::collect_steps(a, pid).push(rec)
        }),
    decreases b.len(),
{
    let ca = crate::aggregate::collect_steps(a, pid);
    assert((a + b).drop_last() =~= a + b.drop_last());
    assert((a + b).last() == b[b.len() - 1]);
    if b.len() == 1 {
        assert(a + b.drop_last() =~= a);
    } else {
        lemma_collect_steps_const_block(a, b.drop_last(), pid, id, rec);
        let prev = crate::aggregate::collect_steps(a + b.drop_last(), pid);
        if crate::aggregate::has_step_id(ca, id) {
            assert(prev == ca);
        } else {
            assert(prev == ca.push(rec));
            assert(prev[prev.len() - 1].step_id == id);
            assert(crate::aggregate::has_step_id(prev, id));
        }
    }
}

/// Walking a recipe's step blocks from an empty collector gathers the
/// whole step table, in table order.
proof fn lemma_collect_steps_block_all(
    a: Seq<JoinRowV>,
    r: RecipeV,
    ing: Option<IngredientV>,
    sts: Seq<StepV>,
    nts: Seq<NoteV>,
)
    requires
        crate::aggregate::collect_steps(a, pid_of(r)) == Seq::<StepV>::empty(),
        forall|i: int|
            0 <= i < sts.len() ==> ((#[trigger] sts[i]).step_id) is Some && sts[i].step_id->0
                >= 1,
        forall|i: int, j: int| 0 <= i < j < sts.len() ==> sts[i].step_id != sts[j].step_id,
    ensures
        crate::aggregate::collect_steps(a + steps_block(r, ing, sts, nts), pid_of(r)) == Seq::new(
            sts.len(),
            |i: int| join_step(r, sts[i]),
        ),
    decreases sts.len(),
{
    let pid = pid_of(r);
    if sts.len() == 0 {
        assert(a + steps_block(r, ing, sts, nts) =~= a);
        assert(Seq::new(0, |i: int| join_step(r, sts[i])) =~= Seq::<StepV>::empty());
    } else {
        let front = sts.drop_last();
        let last = sts.last();
        let block = note_dim(r, ing, Some(last), nts);
        assert(a + steps_block(r, ing, sts, nts) =~= (a + steps_block(r, ing, front, nts))
            + block);
        assert(forall|i: int| 0 <= i < front.len() ==> front[i] == sts[i]);
        lemma_collect_steps_block_all(a, r, ing, front, nts);
        let ca = crate::aggregate::collect_steps(a + steps_block(r, ing, front, nts), pid);
        assert(ca == Seq::new(front.len(), |i: int| join_step(r, front[i])));
        lemma_note_dim_pid(r, ing, Some(last), nts);
        lemma_note_dim_step_cols(r, ing, last, nts);
        lemma_collect_steps_const_block(
            a + steps_block(r, ing, front, nts),
            block,
            pid,
            last.step_id,
            join_step(r, last),
        );
        assert forall|i: int| 0 <= i < ca.len() implies (#[trigger] ca[i]).step_id
            != last.step_id by {
            assert(ca[i] == join_step(r, front[i]));
            assert(front[i].step_id != sts[sts.len() - 1].step_id);
        }
        assert(!crate::aggregate::has_step_id(ca, last.step_id));
        assert(ca.push(join_step(r, last)) =~= Seq::new(
            sts.len(),
            |i: int| join_step(r, sts[i]),
        ));
    }
}

/// Walking a recipe's step blocks again, once every step is gathered,
/// adds nothing more.
proof fn lemma_collect_steps_block_none(
    a: Seq<JoinRowV>,
    r: RecipeV,
    ing: Option<IngredientV>,
    sts: Seq<StepV>,
    nts: Seq<NoteV>,
)
    requires
        forall|i: int|
            0 <= i < sts.len() ==> crate::aggregate::has_step_id(
                crate::aggregate::collect_steps(a, pid_of(r)),
                (#[trigger] sts[i]).step_id,
            ),
        forall|i: int|
            0 <= i < sts.len() ==> ((#[trigger] sts[i]).step_id) is Some && sts[i].step_id->0
                >= 1,
    ensures
        crate::aggregate::collect_steps(a + steps_block(r, ing, sts, nts), pid_of(r))
            == crate::aggregate::collect_steps(a, pid_of(r)),
    decreases sts.len(),
{
    let pid = pid_of(r);
    if sts.len() == 0 {
        assert(a + steps_block(r, ing, sts, nts) =~= a);
    } else {
        let front = sts.drop_last();
        let last = sts.last();
        let block = note_dim(r, ing, Some(last), nts);
        assert(a + steps_block(r, ing, sts, nts) =~= (a + steps_block(r, ing, front, nts))
            + block);
        assert(forall|i: int| 0 <= i < front.len() ==> front[i] == sts[i]);
        lemma_collect_steps_block_none(a, r, ing, front, nts);
        lemma_note_dim_pid(r, ing, Some(last), nts);
        lemma_note_dim_step_cols(r, ing, last, nts);
        lemma_collect_steps_const_block(
            a + steps_block(r, ing, front, nts),
            block,
            pid,
            last.step_id,
            join_step(r, last),
        );
        assert(sts[sts.len() - 1] == last);
        assert(crate::aggregate::has_step_id(crate::aggregate::collect_steps(a, pid), last.step_id));
    }
}

/// One ingredient sub-block (or the padded block of an ingredientless
/// recipe) gathers the whole step table from an empty collector and
/// nothing from a full one.
proof fn lemma_collect_steps_step_dim(
    a: Seq<JoinRowV>,
    r: RecipeV,
    ing: Option<IngredientV>,
    sts: Seq<StepV>,
    nts: Seq<NoteV>,
)
    requires
        forall|i: int|
            0 <= i < sts.len() ==> ((#[trigger] sts[i]).step_id) is Some && sts[i].step_id->0
                >= 1,
        forall|i: int, j: int| 0 <= i < j < sts.len() ==> sts[i].step_id != sts[j].step_id,
        crate::aggregate::collect_steps(a, pid_of(r)) == Seq::<StepV>::empty()
            || crate::aggregate::collect_steps(a, pid_of(r)) == Seq::new(
            sts.len(),
            |i: int| join_step(r, sts[i]),
        ),
    ensures
        crate::aggregate::collect_steps(a + step_dim(r, ing, sts, nts), pid_of(r)) == Seq::new(
            sts.len(),
            |i: int| join_step(r, sts[i]),
        ),
{
    let pid = pid_of(r);
    let smap = Seq::new(sts.len(), |i: int| join_step(r, sts[i]));
    if sts.len() == 0 {
        lemma_note_dim_no_step(r, ing, nts);
        let block = note_dim(r, ing, None, nts);
        assert(crate::aggregate::collect_steps(a + block, pid) == crate::aggregate::collect_steps(
            a,
            pid,
        )) by {
            lemma_collect_steps_app_no_step(a, block, pid);
        }
        assert(smap =~= Seq::<StepV>::empty());
        if crate::aggregate::collect_steps(a, pid) == Seq::<StepV>::empty() {
        } else {
        }
    } else {
        if crate::aggregate::collect_steps(a, pid) == Seq::<StepV>::empty() {
            lemma_collect_steps_block_all(a, r, ing, sts, nts);
        } else {
            assert forall|i: int| 0 <= i < sts.len() implies crate::aggregate::has_step_id(
                crate::aggregate::collect_steps(a, pid),
                (#[trigger] sts[i]).step_id,
            ) by {
                assert(smap[i].step_id == sts[i].step_id);
            }
            lemma_collect_steps_block_none(a, r, ing, sts, nts);
        }
    }
}

proof fn lemma_collect_steps_app_no_step(a: Seq<JoinRowV>, b: Seq<JoinRowV>, pid: i32)
    requires
        forall|i: int| 0 <= i < b.len() ==> !crate::aggregate::row_has_step(#[trigger] b[i]),
    ensures
        crate::aggregate::collect_steps(a + b, pid) == crate::aggregate::collect_steps(a, pid),
    decreases b.len(),
{
    if b.len() == 0 {
        assert(a + b =~= a);
    } else {
        assert((a + b).drop_last() =~= a + b.drop_last());
        assert((a + b).last() == b[b.len() - 1]);
        lemma_collect_steps_app_no_step(a, b.drop_last(), pid);
    }
}

/// Collecting over one recipe's whole block gathers exactly its step
/// table: the first ingredient's sub-block contributes every step, the
/// later sub-blocks repeat them without effect.
proof fn lemma_collect_steps_recipe(
    a: Seq<JoinRowV>,
    r: RecipeV,
    ings: Seq<IngredientV>,
    sts: Seq<StepV>,
    nts: Seq<NoteV>,
)
    requires
        crate::aggregate::collect_steps(a, pid_of(r)) == Seq::<StepV>::empty(),
        forall|i: int|
            0 <= i < sts.len() ==> ((#[trigger] sts[i]).step_id) is Some && sts[i].step_id->0
                >= 1,
        forall|i: int, j: int| 0 <= i < j < sts.len() ==> sts[i].step_id != sts[j].step_id,
    ensures
        crate::aggregate::collect_steps(a + recipe_rows(r, ings, sts, nts), pid_of(r)) == Seq::new(
            sts.len(),
            |i: int| join_step(r, sts[i]),
        ),
    decreases ings.len(),
{
    if ings.len() == 0 {
        lemma_collect_steps_step_dim(a, r, None, sts, nts);
    } else {
        lemma_collect_steps_ings_block(a, r, ings, sts, nts);
    }
}

proof fn lemma_collect_steps_ings_block(
    a: Seq<JoinRowV>,
    r: RecipeV,
    ings: Seq<IngredientV>,
    sts: Seq<StepV>,
    nts: Seq<NoteV>,
)
    requires
        ings.len() >= 1,
        crate::aggregate::collect_steps(a, pid_of(r)) == Seq::<StepV>::empty(),
        forall|i: int|
            0 <= i < sts.len() ==> ((#[trigger] sts[i]).step_id) is Some && sts[i].step_id->0
                >= 1,
        forall|i: int, j: int| 0 <= i < j < sts.len() ==> sts[i].step_id != sts[j].step_id,
    ensures
        crate::aggregate::collect_steps(a + ings_block(r, ings, sts, nts), pid_of(r)) == Seq::new(
            sts.len(),
            |i: int| join_step(r, sts[i]),
        ),
    decreases ings.len(),
{
    let pid = pid_of(r);
    let front = ings.drop_last();
    let last = ings.last();
    let block = step_dim(r, Some(last), sts, nts);
    assert(a + ings_block(r, ings, sts, nts) =~= (a + ings_block(r, front, sts, nts)) + block);
    if ings.len() == 1 {
        assert(ings_block(r, front, sts, nts) =~= Seq::<JoinRowV>::empty());
        assert(a + ings_block(r, front, sts, nts) =~= a);
        lemma_collect_steps_step_dim(a, r, Some(last), sts, nts);
    } else {
        lemma_collect_steps_ings_block(a, r, front, sts, nts);
        lemma_collect_steps_step_dim(a + ings_block(r, front, sts, nts), r, Some(last), sts, nts);
    }
}

proof fn lemma_store_rows_collect_steps(s: StoreV, n: int, j: int)
    requires
        wf(s),
        0 <= j < n <= s.recipes.len(),
    ensures
        crate::aggregate::collect_steps(store_rows(s, n), pid_of(s.recipes[j])) == table_steps(
            s,
            s.recipes[j],
        ),
    decreases n,
{
    let r = s.recipes[j];
    let pid = pid_of(r);
    if n - 1 == j {
        lemma_store_rows_parent_ids(s, j);
        if recipe_pids(s.recipes.take(j)).contains(pid) {
            let q = choose|q: int|
                0 <= q < recipe_pids(s.recipes.take(j)).len() && recipe_pids(
                    s.recipes.take(j),
                )[q] == pid;
            assert(s.recipes.take(j)[q] == s.recipes[q]);
            assert(s.recipes[q].recipe_id is Some);
            assert(s.recipes[j].recipe_id is Some);
            assert(s.recipes[q].recipe_id == Some(pid));
            assert(s.recipes[j].recipe_id == Some(pid));
            assert(false);
        }
        crate::aggregate::lemma_parent_ids_contains(store_rows(s, j), pid);
        crate::aggregate::lemma_collect_of_absent(store_rows(s, j), pid);
        lemma_steps_of_props(s.steps, pid);
        lemma_collect_steps_recipe(
            store_rows(s, j),
            r,
            ings_of(s.ingredients, pid),
            steps_of(s.steps, pid),
            notes_of(s.notes, pid),
        );
    } else {
        lemma_store_rows_collect_steps(s, n - 1, j);
        let other = s.recipes[n - 1];
        let block = recipe_rows(
            other,
            ings_of(s.ingredients, pid_of(other)),
            steps_of(s.steps, pid_of(other)),
            notes_of(s.notes, pid_of(other)),
        );
        lemma_recipe_rows_pid(
            other,
            ings_of(s.ingredients, pid_of(other)),
            steps_of(s.steps, pid_of(other)),
            notes_of(s.notes, pid_of(other)),
        );
        assert(s.recipes[n - 1].recipe_id is Some);
        assert(s.recipes[j].recipe_id is Some);
        assert(s.recipes[n - 1].recipe_id != s.recipes[j].recipe_id);
        assert(pid_of(other) != pid);
        lemma_collect_steps_app_other(store_rows(s, n - 1), block, pid);
    }
}

/// The filtered step table of one recipe keeps valid, distinct
/// identifiers and binds every row to the recipe.
proof fn lemma_steps_of_props(t: Seq<StepV>, pid: i32)
    requires
        forall|i: int|
            0 <= i < t.len() ==> ((#[trigger] t[i].step_id) is Some) && t[i].step_id->0 >= 1,
        forall|i: int, j: int| 0 <= i < j < t.len() ==> t[i].step_id != t[j].step_id,
    ensures
        forall|i: int|
            0 <= i < steps_of(t, pid).len() ==> (#[trigger] steps_of(t, pid)[i]).recipe_id == pid
                && steps_of(t, pid)[i].step_id is Some && steps_of(t, pid)[i].step_id->0 >= 1,
        forall|i: int, j: int|
            0 <= i < j < steps_of(t, pid).len() ==> steps_of(t, pid)[i].step_id != steps_of(
                t,
                pid,
            )[j].step_id,
        forall|i: int|
            0 <= i < steps_of(t, pid).len() ==> exists|k: int|
                0 <= k < t.len() && (#[trigger] steps_of(t, pid)[i]) == #[trigger] t[k],
    decreases t.len(),
{
    if t.len() > 0 {
        assert(forall|i: int| 0 <= i < t.drop_last().len() ==> t.drop_last()[i] == t[i]);
        lemma_steps_of_props(t.drop_last(), pid);
        let prev = steps_of(t.drop_last(), pid);
        if t.last().recipe_id == pid {
            assert(t[t.len() - 1] == t.last());
            assert forall|i: int| 0 <= i < prev.len() implies prev[i].step_id
                != t.last().step_id by {
                let k = choose|k: int| 0 <= k < t.drop_last().len() && prev[i] == t.drop_last()[k];
                assert(t[k].step_id != t[t.len() - 1].step_id);
            }
        }
    }
}

/// Collapse law: in a well-formed store, the aggregate document of each
/// stored recipe carries exactly that recipe's ingredient rows — one per
/// table row, however often the cartesian join repeated them — ordered
/// by identifier.
pub proof fn lemma_aggregate_ingredients_match_table(s: StoreV, i: int)
    requires
        wf(s),
        0 <= i < s.recipes.len(),
    ensures
        aggregate_spec(join_store(s))[i].ingredients == crate::aggregate::sort_ingredients(
            table_ingredients(s, s.recipes[i]),
        ),
{
    lemma_store_rows_parent_ids(s, s.recipes.len() as int);
    assert(s.recipes.take(s.recipes.len() as int) =~= s.recipes);
    assert(crate::aggregate::parent_ids(join_store(s))[i] == pid_of(s.recipes[i]));
    lemma_store_rows_collect(s, s.recipes.len() as int, i);
}

/// The note record a join row carries for table row `x` of recipe `r`.
pub open spec fn join_note(r: RecipeV, x: NoteV) -> NoteV {
    NoteV { recipe_id: pid_of(r), created_at: r.created_at, updated_at: r.updated_at, ..x }
}

/// The note rows one recipe's aggregate gathers before ordering.
pub open spec fn table_notes(s: StoreV, r: RecipeV) -> Seq<NoteV> {
    Seq::new(
        notes_of(s.notes, pid_of(r)).len(),
        |k: int| join_note(r, notes_of(s.notes, pid_of(r))[k]),
    )
}

proof fn lemma_collect_notes_app_other(a: Seq<JoinRowV>, b: Seq<JoinRowV>, pid: i32)
    requires
        forall|i: int| 0 <= i < b.len() ==> (#[trigger] b[i]).recipe_id != pid,
    ensures
        crate::aggregate::collect_notes(a + b, pid) == crate::aggregate::collect_notes(a, pid),
    decreases b.len(),
{
    if b.len() == 0 {
        assert(a + b =~= a);
    } else {
        assert((a + b).drop_last() =~= a + b.drop_last());
        assert((a + b).last() == b[b.len() - 1]);
        lemma_collect_notes_app_other(a, b.drop_last(), pid);
    }
}

/// One note dimension, walked from an empty collector, gathers the whole
/// note table in table order; walked again once full, it adds nothing.
proof fn lemma_collect_notes_note_dim(
    a: Seq<JoinRowV>,
    r: RecipeV,
    ing: Option<IngredientV>,
    st: Option<StepV>,
    nts: Seq<NoteV>,
)
    requires
        forall|i: int|
            0 <= i < nts.len() ==> ((#[trigger] nts[i]).note_id) is Some && nts[i].note_id->0
                >= 1,
        forall|i: int, j: int| 0 <= i < j < nts.len() ==> nts[i].note_id != nts[j].note_id,
        crate::aggregate::collect_notes(a, pid_of(r)) == Seq::<NoteV>::empty()
            || crate::aggregate::collect_notes(a, pid_of(r)) == Seq::new(
            nts.len(),
            |i: int| join_note(r, nts[i]),
        ),
    ensures
        crate::aggregate::collect_notes(a + note_dim(r, ing, st, nts), pid_of(r)) == Seq::new(
            nts.len(),
            |i: int| join_note(r, nts[i]),
        ),
    decreases nts.len(),
{
    let pid = pid_of(r);
    let nmap = Seq::new(nts.len(), |i: int| join_note(r, nts[i]));
    if nts.len() == 0 {
        let whole = a + note_dim(r, ing, st, nts);
        assert(whole.drop_last() =~= a);
        assert(whole.last() == note_dim(r, ing, st, nts)[0]);
        assert(!crate::aggregate::row_has_note(whole.last()));
        assert(nmap =~= Seq::<NoteV>::empty());
    } else {
        let front = nts.drop_last();
        let last = nts.last();
        let fmap = Seq::new(front.len(), |i: int| join_note(r, front[i]));
        let whole = a + note_dim(r, ing, st, nts);
        assert(whole.drop_last() =~= a + note_dim(r, ing, st, nts).drop_last());
        assert(whole.last() == note_dim(r, ing, st, nts)[nts.len() - 1]);
        assert(whole.last() == mk_row(r, ing, st, Some(last)));
        assert(forall|i: int| 0 <= i < front.len() ==> front[i] == nts[i]);
        if nts.len() == 1 {
            assert(note_dim(r, ing, st, nts).drop_last() =~= Seq::<JoinRowV>::empty());
            assert(whole.drop_last() =~= a);
            let prev = crate::aggregate::collect_notes(a, pid);
            if prev == Seq::<NoteV>::empty() {
                assert(!crate::aggregate::has_note_id(prev, last.note_id));
                assert(crate::aggregate::row_note(mk_row(r, ing, st, Some(last))) =~= join_note(
                    r,
                    last,
                ));
                assert(prev.push(join_note(r, last)) =~= nmap);
            } else {
                assert(prev == nmap);
                assert(nmap[0].note_id == last.note_id);
                assert(crate::aggregate::has_note_id(prev, last.note_id));
            }
        } else {
            assert(note_dim(r, ing, st, nts).drop_last() =~= note_dim(r, ing, st, front));
            let prev0 = crate::aggregate::collect_notes(a, pid);
            if prev0 == Seq::<NoteV>::empty() {
                lemma_collect_notes_note_dim(a, r, ing, st, front);
                let prev = crate::aggregate::collect_notes(a + note_dim(r, ing, st, front), pid);
                assert(prev == fmap);
                assert forall|i: int| 0 <= i < prev.len() implies (#[trigger] prev[i]).note_id
                    != last.note_id by {
                    assert(prev[i] == join_note(r, front[i]));
                    assert(front[i].note_id != nts[nts.len() - 1].note_id);
                }
                assert(!crate::aggregate::has_note_id(prev, last.note_id));
                assert(crate::aggregate::row_note(mk_row(r, ing, st, Some(last))) =~= join_note(
                    r,
                    last,
                ));
                assert(prev.push(join_note(r, last)) =~= nmap);
            } else {
                assert(prev0 == nmap);
                assert forall|i: int| 0 <= i < front.len() implies crate::aggregate::has_note_id(
                    prev0,
                    (#[trigger] front[i]).note_id,
                ) by {
                    assert(nmap[i].note_id == nts[i].note_id);
                }
                lemma_collect_notes_note_dim_stay(a, r, ing, st, front, nmap);
                let prev = crate::aggregate::collect_notes(a + note_dim(r, ing, st, front), pid);
                assert(prev == nmap);
                assert(nmap[nts.len() - 1].note_id == last.note_id);
                assert(crate::aggregate::has_note_id(prev, last.note_id));
            }
        }
    }
}

/// Walking a note dimension whose identifiers are already gathered
/// leaves the collector alone.
proof fn lemma_collect_notes_note_dim_stay(
    a: Seq<JoinRowV>,
    r: RecipeV,
    ing: Option<IngredientV>,
    st: Option<StepV>,
    nts: Seq<NoteV>,
    full: Seq<NoteV>,
)
    requires
        crate::aggregate::collect_notes(a, pid_of(r)) == full,
        forall|i: int|
            0 <= i < nts.len() ==> crate::aggregate::has_note_id(
                full,
                (#[trigger] nts[i]).note_id,
            ),
    ensures
        crate::aggregate::collect_notes(a + note_dim(r, ing, st, nts), pid_of(r)) == full,
    decreases nts.len(),
{
    let pid = pid_of(r);
    if nts.len() == 0 {
        let whole = a + note_dim(r, ing, st, nts);
        assert(whole.drop_last() =~= a);
        assert(whole.last() == note_dim(r, ing, st, nts)[0]);
        assert(!crate::aggregate::row_has_note(whole.last()));
    } else {
        let front = nts.drop_last();
        let last = nts.last();
        let whole = a + note_dim(r, ing, st, nts);
        assert(whole.drop_last() =~= a + note_dim(r, ing, st, nts).drop_last());
        assert(whole.last() == note_dim(r, ing, st, nts)[nts.len() - 1]);
        assert(whole.last() == mk_row(r, ing, st, Some(last)));
        assert(forall|i: int| 0 <= i < front.len() ==> front[i] == nts[i]);
        if nts.len() == 1 {
            assert(note_dim(r, ing, st, nts).drop_last() =~= Seq::<JoinRowV>::empty());
            assert(whole.drop_last() =~= a);
        } else {
            assert(note_dim(r, ing, st, nts).drop_last() =~= note_dim(r, ing, st, front));
            lemma_collect_notes_note_dim_stay(a, r, ing, st, front, full);
        }
        assert(nts[nts.len() - 1] == last);
        assert(crate::aggregate::has_note_id(full, last.note_id));
    }
}

/// Every stretch of a recipe's block fills the note collector on its
/// first note dimension and leaves it full afterwards.
proof fn lemma_collect_notes_steps_block(
    a: Seq<JoinRowV>,
    r: RecipeV,
    ing: Option<IngredientV>,
    sts: Seq<StepV>,
    nts: Seq<NoteV>,
)
    requires
        sts.len() >= 1,
        forall|i: int|
            0 <= i < nts.len() ==> ((#[trigger] nts[i]).note_id) is Some && nts[i].note_id->0
                >= 1,
        forall|i: int, j: int| 0 <= i < j < nts.len() ==> nts[i].note_id != nts[j].note_id,
        crate::aggregate::collect_notes(a, pid_of(r)) == Seq::<NoteV>::empty()
            || crate::aggregate::collect_notes(a, pid_of(r)) == Seq::new(
            nts.len(),
            |i: int| join_note(r, nts[i]),
        ),
    ensures
        crate::aggregate::collect_notes(a + steps_block(r, ing, sts, nts), pid_of(r)) == Seq::new(
            nts.len(),
            |i: int| join_note(r, nts[i]),
        ),
    decreases sts.len(),
{
    let pid = pid_of(r);
    let front = sts.drop_last();
    let last = sts.last();
    let block = note_dim(r, ing, Some(last), nts);
    assert(a + steps_block(r, ing, sts, nts) =~= (a + steps_block(r, ing, front, nts)) + block);
    if sts.len() == 1 {
        assert(steps_block(r, ing, front, nts) =~= Seq::<JoinRowV>::empty());
        assert(a + steps_block(r, ing, front, nts) =~= a);
        lemma_collect_notes_note_dim(a, r, ing, Some(last), nts);
    } else {
        lemma_collect_notes_steps_block(a, r, ing, front, nts);
        lemma_collect_notes_note_dim(
            a + steps_block(r, ing, front, nts),
            r,
            ing,
            Some(last),
            nts,
        );
    }
}

proof fn lemma_collect_notes_step_dim(
    a: Seq<JoinRowV>,
    r: RecipeV,
    ing: Option<IngredientV>,
    sts: Seq<StepV>,
    nts: Seq<NoteV>,
)
    requires
        forall|i: int|
            0 <= i < nts.len() ==> ((#[trigger] nts[i]).note_id) is Some && nts[i].note_id->0
                >= 1,
        forall|i: int, j: int| 0 <= i < j < nts.len() ==> nts[i].note_id != nts[j].note_id,
        crate::aggregate::collect_notes(a, pid_of(r)) == Seq::<NoteV>::empty()
            || crate::aggregate::collect_notes(a, pid_of(r)) == Seq::new(
            nts.len(),
            |i: int| join_note(r, nts[i]),
        ),
    ensures
        crate::aggregate::collect_notes(a + step_dim(r, ing, sts, nts), pid_of(r)) == Seq::new(
            nts.len(),
            |i: int| join_note(r, nts[i]),
        ),
{
    if sts.len() == 0 {
        lemma_collect_notes_note_dim(a, r, ing, None, nts);
    } else {
        lemma_collect_notes_steps_block(a, r, ing, sts, nts);
    }
}

proof fn lemma_collect_notes_recipe(
    a: Seq<JoinRowV>,
    r: RecipeV,
    ings: Seq<IngredientV>,
    sts: Seq<StepV>,
    nts: Seq<NoteV>,
)
    requires
        forall|i: int|
            0 <= i < nts.len() ==> ((#[trigger] nts[i]).note_id) is Some && nts[i].note_id->0
                >= 1,
        forall|i: int, j: int| 0 <= i < j < nts.len() ==> nts[i].note_id != nts[j].note_id,
        crate::aggregate::collect_notes(a, pid_of(r)) == Seq::<NoteV>::empty()
            || crate::aggregate::collect_notes(a, pid_of(r)) == Seq::new(
            nts.len(),
            |i: int| join_note(r, nts[i]),
        ),
    ensures
        crate::aggregate::collect_notes(a + recipe_rows(r, ings, sts, nts), pid_of(r)) == Seq::new(
            nts.len(),
            |i: int| join_note(r, nts[i]),
        ),
    decreases ings.len(),
{
    if ings.len() == 0 {
        lemma_collect_notes_step_dim(a, r, None, sts, nts);
    } else {
        let front = ings.drop_last();
        let last = ings.last();
        let block = step_dim(r, Some(last), sts, nts);
        assert(a + ings_block(r, ings, sts, nts) =~= (a + ings_block(r, front, sts, nts))
            + block);
        if ings.len() == 1 {
            assert(ings_block(r, front, sts, nts) =~= Seq::<JoinRowV>::empty());
            assert(a + ings_block(r, front, sts, nts) =~= a);
            lemma_collect_notes_step_dim(a, r, Some(last), sts, nts);
        } else {
            lemma_collect_notes_recipe(a, r, front, sts, nts);
            assert(a + recipe_rows(r, front, sts, nts) =~= a + ings_block(r, front, sts, nts));
            lemma_collect_notes_step_dim(
                a + ings_block(r, front, sts, nts),
                r,
                Some(last),
                sts,
                nts,
            );
        }
    }
}

proof fn lemma_notes_of_props(t: Seq<NoteV>, pid: i32)
    requires
        forall|i: int|
            0 <= i < t.len() ==> ((#[trigger] t[i].note_id) is Some) && t[i].note_id->0 >= 1,
        forall|i: int, j: int| 0 <= i < j < t.len() ==> t[i].note_id != t[j].note_id,
    ensures
        forall|i: int|
            0 <= i < notes_of(t, pid).len() ==> (#[trigger] notes_of(t, pid)[i]).recipe_id == pid
                && notes_of(t, pid)[i].note_id is Some && notes_of(t, pid)[i].note_id->0 >= 1,
        forall|i: int, j: int|
            0 <= i < j < notes_of(t, pid).len() ==> notes_of(t, pid)[i].note_id != notes_of(
                t,
                pid,
            )[j].note_id,
        forall|i: int|
            0 <= i < notes_of(t, pid).len() ==> exists|k: int|
                0 <= k < t.len() && (#[trigger] notes_of(t, pid)[i]) == #[trigger] t[k],
    decreases t.len(),
{
    if t.len() > 0 {
        assert(forall|i: int| 0 <= i < t.drop_last().len() ==> t.drop_last()[i] == t[i]);
        lemma_notes_of_props(t.drop_last(), pid);
        let prev = notes_of(t.drop_last(), pid);
        if t.last().recipe_id == pid {
            assert(t[t.len() - 1] == t.last());
            assert forall|i: int| 0 <= i < prev.len() implies prev[i].note_id
                != t.last().note_id by {
                let k = choose|k: int| 0 <= k < t.drop_last().len() && prev[i] == t.drop_last()[k];
                assert(t[k].note_id != t[t.len() - 1].note_id);
            }
        }
    }
}

proof fn lemma_store_rows_collect_notes(s: StoreV, n: int, j: int)
    requires
        wf(s),
        0 <= j < n <= s.recipes.len(),
    ensures
        crate::aggregate::collect_notes(store_rows(s, n), pid_of(s.recipes[j])) == table_notes(
            s,
            s.recipes[j],
        ),
    decreases n,
{
    let r = s.recipes[j];
    let pid = pid_of(r);
    if n - 1 == j {
        lemma_store_rows_parent_ids(s, j);
        if recipe_pids(s.recipes.take(j)).contains(pid) {
            let q = choose|q: int|
                0 <= q < recipe_pids(s.recipes.take(j)).len() && recipe_pids(
                    s.recipes.take(j),
                )[q] == pid;
            assert(s.recipes.take(j)[q] == s.recipes[q]);
            assert(s.recipes[q].recipe_id is Some);
            assert(s.recipes[j].recipe_id is Some);
            assert(s.recipes[q].recipe_id == Some(pid));
            assert(s.recipes[j].recipe_id == Some(pid));
            assert(false);
        }
        crate::aggregate::lemma_parent_ids_contains(store_rows(s, j), pid);
        crate::aggregate::lemma_collect_of_absent(store_rows(s, j), pid);
        lemma_notes_of_props(s.notes, pid);
        lemma_collect_notes_recipe(
            store_rows(s, j),
            r,
            ings_of(s.ingredients, pid),
            steps_of(s.steps, pid),
            notes_of(s.notes, pid),
        );
    } else {
        lemma_store_rows_collect_notes(s, n - 1, j);
        let other = s.recipes[n - 1];
        let block = recipe_rows(
            other,
            ings_of(s.ingredients, pid_of(other)),
            steps_of(s.steps, pid_of(other)),
            notes_of(s.notes, pid_of(other)),
        );
        lemma_recipe_rows_pid(
            other,
            ings_of(s.ingredients, pid_of(other)),
            steps_of(s.steps, pid_of(other)),
            notes_of(s.notes, pid_of(other)),
        );
        assert(s.recipes[n - 1].recipe_id is Some);
        assert(s.recipes[j].recipe_id is Some);
        assert(s.recipes[n - 1].recipe_id != s.recipes[j].recipe_id);
        assert(pid_of(other) != pid);
        lemma_collect_notes_app_other(store_rows(s, n - 1), block, pid);
    }
}

/// Whether a join row repeats the parent columns of recipe `r`.
pub open spec fn parent_cols_match(x: JoinRowV, r: RecipeV) -> bool {
    &&& x.recipe_id == pid_of(r)
    &&& x.name == r.name
    &&& x.description == r.description
    &&& x.prep_time_minutes == r.prep_time_minutes
    &&& x.servings == r.servings
    &&& x.main_photo == r.main_photo
    &&& x.created_at == r.created_at
    &&& x.updated_at == r.updated_at
}

proof fn lemma_note_dim_cols(r: RecipeV, ing: Option<IngredientV>, st: Option<StepV>, nts: Seq<NoteV>)
    ensures
        forall|i: int|
            0 <= i < note_dim(r, ing, st, nts).len() ==> parent_cols_match(
                #[trigger] note_dim(r, ing, st, nts)[i],
                r,
            ),
{
}

proof fn lemma_steps_block_cols(
    r: RecipeV,
    ing: Option<IngredientV>,
    sts: Seq<StepV>,
    nts: Seq<NoteV>,
)
    ensures
        forall|i: int|
            0 <= i < steps_block(r, ing, sts, nts).len() ==> parent_cols_match(
                #[trigger] steps_block(r, ing, sts, nts)[i],
                r,
            ),
    decreases sts.len(),
{
    if sts.len() > 0 {
        lemma_steps_block_cols(r, ing, sts.drop_last(), nts);
        lemma_note_dim_cols(r, ing, Some(sts.last()), nts);
        let front = steps_block(r, ing, sts.drop_last(), nts);
        let nd = note_dim(r, ing, Some(sts.last()), nts);
        assert forall|i: int| 0 <= i < steps_block(r, ing, sts, nts).len() implies parent_cols_match(
            #[trigger] steps_block(r, ing, sts, nts)[i],
            r,
        ) by {
            if i < front.len() {
                assert(steps_block(r, ing, sts, nts)[i] == front[i]);
            } else {
                assert(steps_block(r, ing, sts, nts)[i] == nd[i - front.len()]);
            }
        }
    }
}

proof fn lemma_step_dim_cols(r: RecipeV, ing: Option<IngredientV>, sts: Seq<StepV>, nts: Seq<NoteV>)
    ensures
        forall|i: int|
            0 <= i < step_dim(r, ing, sts, nts).len() ==> parent_cols_match(
                #[trigger] step_dim(r, ing, sts, nts)[i],
                r,
            ),
{
    if sts.len() > 0 {
        lemma_steps_block_cols(r, ing, sts, nts);
    }
}

proof fn lemma_recipe_rows_cols(
    r: RecipeV,
    ings: Seq<IngredientV>,
    sts: Seq<StepV>,
    nts: Seq<NoteV>,
)
    ensures
        forall|i: int|
            0 <= i < recipe_rows(r, ings, sts, nts).len() ==> parent_cols_match(
                #[trigger] recipe_rows(r, ings, sts, nts)[i],
                r,
            ),
    decreases ings.len(),
{
    if ings.len() == 0 {
        lemma_step_dim_cols(r, None, sts, nts);
    } else {
        lemma_ings_block_cols(r, ings, sts, nts);
    }
}

proof fn lemma_ings_block_cols(r: RecipeV, ings: Seq<IngredientV>, sts: Seq<StepV>, nts: Seq<NoteV>)
    ensures
        forall|i: int|
            0 <= i < ings_block(r, ings, sts, nts).len() ==> parent_cols_match(
                #[trigger] ings_block(r, ings, sts, nts)[i],
                r,
            ),
    decreases ings.len(),
{
    if ings.len() > 0 {
        lemma_ings_block_cols(r, ings.drop_last(), sts, nts);
        lemma_step_dim_cols(r, Some(ings.last()), sts, nts);
        let front = ings_block(r, ings.drop_last(), sts, nts);
        let sd = step_dim(r, Some(ings.last()), sts, nts);
        assert forall|i: int| 0 <= i < ings_block(r, ings, sts, nts).len() implies parent_cols_match(
            #[trigger] ings_block(r, ings, sts, nts)[i],
            r,
        ) by {
            if i < front.len() {
                assert(ings_block(r, ings, sts, nts)[i] == front[i]);
            } else {
                assert(ings_block(r, ings, sts, nts)[i] == sd[i - front.len()]);
            }
        }
    }
}

/// The first row of a recipe absent from a leading stretch lies past it.
proof fn lemma_first_row_app(a: Seq<JoinRowV>, b: Seq<JoinRowV>, pid: i32)
    requires
        !crate::aggregate::contains_pid(a, pid),
    ensures
        crate::aggregate::first_row(a + b, pid) == crate::aggregate::first_row(b, pid),
    decreases a.len(),
{
    if a.len() == 0 {
        assert(a + b =~= b);
    } else {
        assert((a + b)[0] == a[0]);
        assert(a[0].recipe_id != pid);
        assert((a + b).drop_first() =~= a.drop_first() + b);
        assert(forall|i: int| 0 <= i < a.drop_first().len() ==> a.drop_first()[i] == a[i + 1]);
        assert(!crate::aggregate::contains_pid(a.drop_first(), pid));
        lemma_first_row_app(a.drop_first(), b, pid);
    }
}

/// Collapse law for the parent: each aggregate document's own columns
/// are its stored recipe row's columns.
pub proof fn lemma_aggregate_parent_match_table(s: StoreV, i: int)
    requires
        wf(s),
        0 <= i < s.recipes.len(),
    ensures
        aggregate_spec(join_store(s))[i].recipe_id == s.recipes[i].recipe_id,
        aggregate_spec(join_store(s))[i].name == s.recipes[i].name,
        aggregate_spec(join_store(s))[i].description == s.recipes[i].description,
        aggregate_spec(join_store(s))[i].prep_time_minutes == s.recipes[i].prep_time_minutes,
        aggregate_spec(join_store(s))[i].servings == s.recipes[i].servings,
        aggregate_spec(join_store(s))[i].main_photo == s.recipes[i].main_photo,
        aggregate_spec(join_store(s))[i].created_at == s.recipes[i].created_at,
        aggregate_spec(join_store(s))[i].updated_at == s.recipes[i].updated_at,
{
    let r = s.recipes[i];
    let pid = pid_of(r);
    lemma_store_rows_parent_ids(s, s.recipes.len() as int);
    assert(s.recipes.take(s.recipes.len() as int) =~= s.recipes);
    assert(crate::aggregate::parent_ids(join_store(s))[i] == pid);
    lemma_aggregate_covers_store(s);
    // The stream splits into the blocks before this recipe, its own
    // block, and the blocks after it.
    lemma_split_store_rows(s, i);
}

/// Splits the whole row stream around recipe `i`'s block and reads that
/// block's first row.
proof fn lemma_split_store_rows(s: StoreV, i: int)
    requires
        wf(s),
        0 <= i < s.recipes.len(),
    ensures
        parent_cols_match(
            crate::aggregate::first_row(join_store(s), pid_of(s.recipes[i])),
            s.recipes[i],
        ),
{
    let r = s.recipes[i];
    let pid = pid_of(r);
    let block = recipe_rows(
        r,
        ings_of(s.ingredients, pid),
        steps_of(s.steps, pid),
        notes_of(s.notes, pid),
    );
    lemma_recipe_rows_pid(
        r,
        ings_of(s.ingredients, pid),
        steps_of(s.steps, pid),
        notes_of(s.notes, pid),
    );
    lemma_recipe_rows_cols(
        r,
        ings_of(s.ingredients, pid),
        steps_of(s.steps, pid),
        notes_of(s.notes, pid),
    );
    // join = store_rows(i) + block + rest, built up one block at a time.
    lemma_store_rows_split_at(s, i + 1, s.recipes.len() as int);
    let rest = store_rows_from(s, i + 1, s.recipes.len() as int);
    assert(join_store(s) =~= store_rows(s, i + 1) + rest);
    assert(store_rows(s, i + 1) =~= store_rows(s, i) + block);
    assert(join_store(s) =~= store_rows(s, i) + (block + rest));
    lemma_store_rows_parent_ids(s, i);
    if recipe_pids(s.recipes.take(i)).contains(pid) {
        let q = choose|q: int|
            0 <= q < recipe_pids(s.recipes.take(i)).len() && recipe_pids(s.recipes.take(i))[q]
                == pid;
        assert(s.recipes.take(i)[q] == s.recipes[q]);
        assert(s.recipes[q].recipe_id is Some);
        assert(s.recipes[i].recipe_id is Some);
        assert(s.recipes[q].recipe_id == Some(pid));
        assert(s.recipes[i].recipe_id == Some(pid));
        assert(false);
    }
    crate::aggregate::lemma_parent_ids_contains(store_rows(s, i), pid);
    lemma_first_row_app(store_rows(s, i), block + rest, pid);
    assert((block + rest)[0] == block[0]);
    assert(block[0].recipe_id == pid);
    assert(crate::aggregate::first_row(block + rest, pid) == (block + rest)[0]);
    assert(parent_cols_match(block[0], r));
}

/// The rows of recipes `from` through `to`, as the stream appends them.
pub open spec fn store_rows_from(s: StoreV, from: int, to: int) -> Seq<JoinRowV>
    decreases to - from,
{
    if to <= from {
        Seq::empty()
    } else {
        recipe_rows(
            s.recipes[from],
            ings_of(s.ingredients, pid_of(s.recipes[from])),
            steps_of(s.steps, pid_of(s.recipes[from])),
            notes_of(s.notes, pid_of(s.recipes[from])),
        ) + store_rows_from(s, from + 1, to)
    }
}

proof fn lemma_store_rows_split_at(s: StoreV, from: int, to: int)
    requires
        0 <= from <= to,
    ensures
        store_rows(s, to) == store_rows(s, from) + store_rows_from(s, from, to),
    decreases to - from,
{
    if to <= from {
        assert(store_rows(s, from) + Seq::<JoinRowV>::empty() =~= store_rows(s, from));
    } else {
        lemma_store_rows_split_at(s, from + 1, to);
        let head = recipe_rows(
            s.recipes[from],
            ings_of(s.ingredients, pid_of(s.recipes[from])),
            steps_of(s.steps, pid_of(s.recipes[from])),
            notes_of(s.notes, pid_of(s.recipes[from])),
        );
        assert(store_rows(s, from + 1) =~= store_rows(s, from) + head);
        assert((store_rows(s, from) + head) + store_rows_from(s, from + 1, to) =~= store_rows(
            s,
            from,
        ) + (head + store_rows_from(s, from + 1, to)));
    }
}

/// Collapse law for notes: each aggregate document carries exactly its
/// recipe's note rows, one per table row, ordered by identifier.
pub proof fn lemma_aggregate_notes_match_table(s: StoreV, i: int)
    requires
        wf(s),
        0 <= i < s.recipes.len(),
    ensures
        aggregate_spec(join_store(s))[i].notes == crate::aggregate::sort_notes(
            table_notes(s, s.recipes[i]),
        ),
{
    lemma_store_rows_parent_ids(s, s.recipes.len() as int);
    assert(s.recipes.take(s.recipes.len() as int) =~= s.recipes);
    assert(crate::aggregate::parent_ids(join_store(s))[i] == pid_of(s.recipes[i]));
    lemma_store_rows_collect_notes(s, s.recipes.len() as int, i);
}

/// Collapse law for steps: each aggregate document carries exactly its
/// recipe's step rows, one per table row, ordered by step number.
pub proof fn lemma_aggregate_steps_match_table(s: StoreV, i: int)
    requires
        wf(s),
        0 <= i < s.recipes.len(),
    ensures
        aggregate_spec(join_store(s))[i].steps == crate::aggregate::sort_steps(
            table_steps(s, s.recipes[i]),
        ),
{
    lemma_store_rows_parent_ids(s, s.recipes.len() as int);
    assert(s.recipes.take(s.recipes.len() as int) =~= s.recipes);
    assert(crate::aggregate::parent_ids(join_store(s))[i] == pid_of(s.recipes[i]));
    lemma_store_rows_collect_steps(s, s.recipes.len() as int, i);
}

/// Coverage law: the aggregate of a well-formed store has exactly one
/// document per stored recipe, in table order, under that recipe's
/// identifier.  In particular a filtered fetch is NotFound exactly when
/// no stored recipe carries the requested identifier.
pub proof fn lemma_aggregate_covers_store(s: StoreV)
    requires
        wf(s),
    ensures
        aggregate_spec(join_store(s)).len() == s.recipes.len(),
        forall|i: int|
            0 <= i < s.recipes.len() ==> (#[trigger] aggregate_spec(join_store(s))[i]).recipe_id
                == s.recipes[i].recipe_id,
{
    lemma_store_rows_parent_ids(s, s.recipes.len() as int);
    assert(s.recipes.take(s.recipes.len() as int) =~= s.recipes);
    let pids = crate::aggregate::parent_ids(join_store(s));
    assert(pids == recipe_pids(s.recipes));
    assert forall|i: int| 0 <= i < s.recipes.len() implies (#[trigger] aggregate_spec(
        join_store(s),
    )[i]).recipe_id == s.recipes[i].recipe_id by {
        assert(pids[i] == pid_of(s.recipes[i]));
        assert(s.recipes[i].recipe_id is Some);
        assert(aggregate_spec(join_store(s))[i].recipe_id == Some(pids[i]));
    }
}

} // verus!
