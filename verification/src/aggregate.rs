//! Row aggregation: collapsing the flat row stream of a left join into
//! nested `FullRecipe` documents.
//!
//! A join row repeats the parent's columns and carries at most one
//! ingredient's, one step's and one note's columns; a recipe with several
//! children of each kind appears once per combination (cartesian
//! expansion).  The aggregator keeps one document per distinct recipe
//! identifier in order of first appearance, deduplicates children by their
//! own identifier (first occurrence wins, padding rows with an absent or
//! nonpositive identifier are skipped), and orders ingredients and notes
//! by identifier and steps by step number.

use vstd::multiset::Multiset;
use vstd::prelude::*;

use crate::model::{FullRecipe, FullRecipeV, IngredientV, NoteV, RecipeIngredient, RecipeNote,
    RecipeStep, StepV};

verus! {

broadcast use vstd::seq::group_seq_axioms, vstd::std_specs::vec::group_vec_axioms;

/// One row of the denormalized join stream.
#[derive(Clone, Debug, PartialEq)]
pub struct JoinRow {
    pub recipe_id: i32,
    pub name: String,
    pub description: Option<String>,
    pub prep_time_minutes: Option<i32>,
    pub servings: Option<i32>,
    pub main_photo: Option<String>,
    pub created_at: Option<String>,
    pub updated_at: Option<String>,
    pub ingredient_id: Option<i32>,
    pub ingredient_name: String,
    pub quantity: Option<String>,
    pub unit: Option<String>,
    pub step_id: Option<i32>,
    pub step_number: i32,
    pub instructions: String,
    pub note_id: Option<i32>,
    pub note: String,
}

/// Mathematical view of a `JoinRow`.
#[verifier::ext_equal]
pub ghost struct JoinRowV {
    pub recipe_id: i32,
    pub name: Seq<char>,
    pub description: Option<Seq<char>>,
    pub prep_time_minutes: Option<i32>,
    pub servings: Option<i32>,
    pub main_photo: Option<Seq<char>>,
    pub created_at: Option<Seq<char>>,
    pub updated_at: Option<Seq<char>>,
    pub ingredient_id: Option<i32>,
    pub ingredient_name: Seq<char>,
    pub quantity: Option<Seq<char>>,
    pub unit: Option<Seq<char>>,
    pub step_id: Option<i32>,
    pub step_number: i32,
    pub instructions: Seq<char>,
    pub note_id: Option<i32>,
    pub note: Seq<char>,
}

impl View for JoinRow {
    type V = JoinRowV;

    open spec fn view(&self) -> JoinRowV {
        JoinRowV {
            recipe_id: self.recipe_id,
            name: self.name@,
            description: self.description.deep_view(),
            prep_time_minutes: self.prep_time_minutes,
            servings: self.servings,
            main_photo: self.main_photo.deep_view(),
            created_at: self.created_at.deep_view(),
            updated_at: self.updated_at.deep_view(),
            ingredient_id: self.ingredient_id,
            ingredient_name: self.ingredient_name@,
            quantity: self.quantity.deep_view(),
            unit: self.unit.deep_view(),
            step_id: self.step_id,
            step_number: self.step_number,
            instructions: self.instructions@,
            note_id: self.note_id,
            note: self.note@,
        }
    }
}

impl DeepView for JoinRow {
    type V = JoinRowV;

    open spec fn deep_view(&self) -> JoinRowV {
        self.view()
    }
}

// ---------------------------------------------------------------------------
// What one row contributes
// ---------------------------------------------------------------------------

/// A child column group is real only when its own identifier is present
/// and positive; anything else is the left join's padding.
pub open spec fn row_has_ingredient(r: JoinRowV) -> bool {
    match r.ingredient_id {
        Some(id) => id > 0,
        None => false,
    }
}

pub open spec fn row_has_step(r: JoinRowV) -> bool {
    match r.step_id {
        Some(id) => id > 0,
        None => false,
    }
}

pub open spec fn row_has_note(r: JoinRowV) -> bool {
    match r.note_id {
        Some(id) => id > 0,
        None => false,
    }
}

/// The ingredient record a row carries.  Its timestamps are the row's
/// parent timestamps: the join selects no child timestamp columns.
pub open spec fn row_ingredient(r: JoinRowV) -> IngredientV {
    IngredientV {
        recipe_ingredient_id: r.ingredient_id,
        recipe_id: r.recipe_id,
        ingredient_name: r.ingredient_name,
        quantity: r.quantity,
        unit: r.unit,
        created_at: r.created_at,
        updated_at: r.updated_at,
    }
}

pub open spec fn row_step(r: JoinRowV) -> StepV {
    StepV {
        step_id: r.step_id,
        recipe_id: r.recipe_id,
        step_number: r.step_number,
        instructions: r.instructions,
        created_at: r.created_at,
        updated_at: r.updated_at,
    }
}

pub open spec fn row_note(r: JoinRowV) -> NoteV {
    NoteV {
        note_id: r.note_id,
        recipe_id: r.recipe_id,
        note: r.note,
        created_at: r.created_at,
        updated_at: r.updated_at,
    }
}

// ---------------------------------------------------------------------------
// Collecting children, deduplicated by identifier
// ---------------------------------------------------------------------------

pub open spec fn has_ingredient_id(s: Seq<IngredientV>, id: Option<i32>) -> bool {
    exists|i: int| 0 <= i < s.len() && s[i].recipe_ingredient_id == id
}

pub open spec fn has_step_id(s: Seq<StepV>, id: Option<i32>) -> bool {
    exists|i: int| 0 <= i < s.len() && s[i].step_id == id
}

pub open spec fn has_note_id(s: Seq<NoteV>, id: Option<i32>) -> bool {
    exists|i: int| 0 <= i < s.len() && s[i].note_id == id
}

/// The ingredients of recipe `pid` in the stream, in order of first
/// appearance, one per distinct identifier (the first row wins).
pub open spec fn collect_ingredients(rows: Seq<JoinRowV>, pid: i32) -> Seq<IngredientV>
    decreases rows.len(),
{
    if rows.len() == 0 {
        Seq::empty()
    } else {
        let prev = collect_ingredients(rows.drop_last(), pid);
        let r = rows.last();
        if r.recipe_id == pid && row_has_ingredient(r) && !has_ingredient_id(
            prev,
            r.ingredient_id,
        ) {
            prev.push(row_ingredient(r))
        } else {
            prev
        }
    }
}

pub open spec fn collect_steps(rows: Seq<JoinRowV>, pid: i32) -> Seq<StepV>
    decreases rows.len(),
{
    if rows.len() == 0 {
        Seq::empty()
    } else {
        let prev = collect_steps(rows.drop_last(), pid);
        let r = rows.last();
        if r.recipe_id == pid && row_has_step(r) && !has_step_id(prev, r.step_id) {
            prev.push(row_step(r))
        } else {
            prev
        }
    }
}

pub open spec fn collect_notes(rows: Seq<JoinRowV>, pid: i32) -> Seq<NoteV>
    decreases rows.len(),
{
    if rows.len() == 0 {
        Seq::empty()
    } else {
        let prev = collect_notes(rows.drop_last(), pid);
        let r = rows.last();
        if r.recipe_id == pid && row_has_note(r) && !has_note_id(prev, r.note_id) {
            prev.push(row_note(r))
        } else {
            prev
        }
    }
}

// ---------------------------------------------------------------------------
// Parents
// ---------------------------------------------------------------------------

/// Whether some row of the stream belongs to recipe `pid`.
pub open spec fn contains_pid(rows: Seq<JoinRowV>, pid: i32) -> bool {
    exists|i: int| 0 <= i < rows.len() && rows[i].recipe_id == pid
}

/// The distinct recipe identifiers of the stream, in order of first
/// appearance.
pub open spec fn parent_ids(rows: Seq<JoinRowV>) -> Seq<i32>
    decreases rows.len(),
{
    if rows.len() == 0 {
        Seq::empty()
    } else {
        let prev = parent_ids(rows.drop_last());
        if prev.contains(rows.last().recipe_id) {
            prev
        } else {
            prev.push(rows.last().recipe_id)
        }
    }
}

/// The first row of recipe `pid`, whose parent columns populate the
/// aggregate (all rows of one recipe repeat the same parent columns).
pub open spec fn first_row(rows: Seq<JoinRowV>, pid: i32) -> JoinRowV
    decreases rows.len(),
{
    if rows.len() == 0 {
        arbitrary()
    } else if rows[0].recipe_id == pid {
        rows[0]
    } else {
        first_row(rows.drop_first(), pid)
    }
}

// ---------------------------------------------------------------------------
// Ordering the children
// ---------------------------------------------------------------------------

/// The sort key of an ingredient: its identifier, with an absent
/// identifier before every present one.
pub open spec fn ingredient_key(x: IngredientV) -> int {
    match x.recipe_ingredient_id {
        Some(i) => i as int,
        None => i32::MIN - 1,
    }
}

pub open spec fn step_key(x: StepV) -> int {
    x.step_number as int
}

pub open spec fn note_key(x: NoteV) -> int {
    match x.note_id {
        Some(i) => i as int,
        None => i32::MIN - 1,
    }
}

/// Stable insertion: `x` goes after every element whose key is not larger.
pub open spec fn insert_ingredient(x: IngredientV, s: Seq<IngredientV>) -> Seq<IngredientV>
    decreases s.len(),
{
    if s.len() == 0 {
        seq![x]
    } else if ingredient_key(x) < ingredient_key(s.last()) {
        insert_ingredient(x, s.drop_last()).push(s.last())
    } else {
        s.push(x)
    }
}

/// Stable insertion sort of ingredients by identifier.
pub open spec fn sort_ingredients(s: Seq<IngredientV>) -> Seq<IngredientV>
    decreases s.len(),
{
    if s.len() == 0 {
        Seq::empty()
    } else {
        insert_ingredient(s.last(), sort_ingredients(s.drop_last()))
    }
}

pub open spec fn insert_step(x: StepV, s: Seq<StepV>) -> Seq<StepV>
    decreases s.len(),
{
    if s.len() == 0 {
        seq![x]
    } else if step_key(x) < step_key(s.last()) {
        insert_step(x, s.drop_last()).push(s.last())
    } else {
        s.push(x)
    }
}

/// Stable insertion sort of steps by step number.
pub open spec fn sort_steps(s: Seq<StepV>) -> Seq<StepV>
    decreases s.len(),
{
    if s.len() == 0 {
        Seq::empty()
    } else {
        insert_step(s.last(), sort_steps(s.drop_last()))
    }
}

pub open spec fn insert_note(x: NoteV, s: Seq<NoteV>) -> Seq<NoteV>
    decreases s.len(),
{
    if s.len() == 0 {
        seq![x]
    } else if note_key(x) < note_key(s.last()) {
        insert_note(x, s.drop_last()).push(s.last())
    } else {
        s.push(x)
    }
}

/// Stable insertion sort of notes by identifier.
pub open spec fn sort_notes(s: Seq<NoteV>) -> Seq<NoteV>
    decreases s.len(),
{
    if s.len() == 0 {
        Seq::empty()
    } else {
        insert_note(s.last(), sort_notes(s.drop_last()))
    }
}

// ---------------------------------------------------------------------------
// The aggregate
// ---------------------------------------------------------------------------

/// The document of recipe `pid` before its children are ordered.
pub open spec fn partial_recipe(rows: Seq<JoinRowV>, pid: i32) -> FullRecipeV {
    let fr = first_row(rows, pid);
    FullRecipeV {
        recipe_id: Some(pid),
        name: fr.name,
        description: fr.description,
        prep_time_minutes: fr.prep_time_minutes,
        servings: fr.servings,
        main_photo: fr.main_photo,
        created_at: fr.created_at,
        updated_at: fr.updated_at,
        ingredients: collect_ingredients(rows, pid),
        steps: collect_steps(rows, pid),
        notes: collect_notes(rows, pid),
    }
}

/// The finished document of recipe `pid`.
pub open spec fn build_recipe(rows: Seq<JoinRowV>, pid: i32) -> FullRecipeV {
    let p = partial_recipe(rows, pid);
    FullRecipeV {
        ingredients: sort_ingredients(p.ingredients),
        steps: sort_steps(p.steps),
        notes: sort_notes(p.notes),
        ..p
    }
}

/// What aggregation of a row stream yields: one document per distinct
/// recipe identifier, in order of first appearance.
pub open spec fn aggregate_spec(rows: Seq<JoinRowV>) -> Seq<FullRecipeV> {
    Seq::new(parent_ids(rows).len(), |i: int| build_recipe(rows, parent_ids(rows)[i]))
}

// ---------------------------------------------------------------------------
// Laws of the aggregation
// ---------------------------------------------------------------------------

/// A recipe identifier is listed exactly when some row carries it.
pub proof fn lemma_parent_ids_contains(rows: Seq<JoinRowV>, pid: i32)
    ensures
        parent_ids(rows).contains(pid) <==> contains_pid(rows, pid),
    decreases rows.len(),
{
    if rows.len() == 0 {
        assert(!parent_ids(rows).contains(pid));
        assert(!contains_pid(rows, pid));
    } else {
        lemma_parent_ids_contains(rows.drop_last(), pid);
        let prev = parent_ids(rows.drop_last());
        let last = rows.last();
        if last.recipe_id == pid {
            assert(rows[rows.len() - 1].recipe_id == pid);
            assert(contains_pid(rows, pid));
            if prev.contains(pid) {
                assert(parent_ids(rows) == prev);
            } else {
                assert(parent_ids(rows)[parent_ids(rows).len() - 1] == pid);
            }
            assert(parent_ids(rows).contains(pid));
        } else {
            if contains_pid(rows, pid) {
                let i = choose|i: int| 0 <= i < rows.len() && rows[i].recipe_id == pid;
                assert(i != rows.len() - 1);
                assert(rows.drop_last()[i] == rows[i]);
                assert(contains_pid(rows.drop_last(), pid));
            }
            if contains_pid(rows.drop_last(), pid) {
                let i = choose|i: int|
                    0 <= i < rows.drop_last().len() && rows.drop_last()[i].recipe_id == pid;
                assert(rows[i].recipe_id == pid);
                assert(contains_pid(rows, pid));
            }
            if prev.contains(pid) {
                let k = choose|k: int| 0 <= k < prev.len() && prev[k] == pid;
                assert(parent_ids(rows)[k] == pid);
                assert(parent_ids(rows).contains(pid));
            } else {
                if parent_ids(rows).contains(pid) {
                    let k = choose|k: int|
                        0 <= k < parent_ids(rows).len() && parent_ids(rows)[k] == pid;
                    if k < prev.len() {
                        assert(prev[k] == pid);
                        assert(prev.contains(pid));
                    } else {
                        assert(parent_ids(rows)[k] == last.recipe_id);
                    }
                }
            }
        }
    }
}

/// Dedup of parents: the aggregate lists each recipe identifier once.
pub proof fn lemma_parent_ids_distinct(rows: Seq<JoinRowV>)
    ensures
        forall|i: int, j: int|
            0 <= i < j < parent_ids(rows).len() ==> parent_ids(rows)[i] != parent_ids(rows)[j],
    decreases rows.len(),
{
    if rows.len() > 0 {
        lemma_parent_ids_distinct(rows.drop_last());
        let prev = parent_ids(rows.drop_last());
        if !prev.contains(rows.last().recipe_id) {
            assert(forall|i: int|
                0 <= i < prev.len() ==> #[trigger] prev[i] != rows.last().recipe_id);
        }
    }
}

/// Dedup of children: collected ingredients carry pairwise distinct
/// identifiers; the first row of each identifier is the one kept.
pub proof fn lemma_collect_ingredients_distinct(rows: Seq<JoinRowV>, pid: i32)
    ensures
        forall|i: int, j: int|
            0 <= i < j < collect_ingredients(rows, pid).len()
                ==> collect_ingredients(rows, pid)[i].recipe_ingredient_id != collect_ingredients(
                rows,
                pid,
            )[j].recipe_ingredient_id,
    decreases rows.len(),
{
    if rows.len() > 0 {
        lemma_collect_ingredients_distinct(rows.drop_last(), pid);
        let prev = collect_ingredients(rows.drop_last(), pid);
        let r = rows.last();
        if r.recipe_id == pid && row_has_ingredient(r) && !has_ingredient_id(
            prev,
            r.ingredient_id,
        ) {
            assert(forall|i: int|
                0 <= i < prev.len()
                    ==> #[trigger] prev[i].recipe_ingredient_id != r.ingredient_id);
        }
    }
}

/// Dedup of children: collected steps carry pairwise distinct identifiers.
pub proof fn lemma_collect_steps_distinct(rows: Seq<JoinRowV>, pid: i32)
    ensures
        forall|i: int, j: int|
            0 <= i < j < collect_steps(rows, pid).len() ==> collect_steps(rows, pid)[i].step_id
                != collect_steps(rows, pid)[j].step_id,
    decreases rows.len(),
{
    if rows.len() > 0 {
        lemma_collect_steps_distinct(rows.drop_last(), pid);
        let prev = collect_steps(rows.drop_last(), pid);
        let r = rows.last();
        if r.recipe_id == pid && row_has_step(r) && !has_step_id(prev, r.step_id) {
            assert(forall|i: int| 0 <= i < prev.len() ==> #[trigger] prev[i].step_id != r.step_id);
        }
    }
}

/// Dedup of children: collected notes carry pairwise distinct identifiers.
pub proof fn lemma_collect_notes_distinct(rows: Seq<JoinRowV>, pid: i32)
    ensures
        forall|i: int, j: int|
            0 <= i < j < collect_notes(rows, pid).len() ==> collect_notes(rows, pid)[i].note_id
                != collect_notes(rows, pid)[j].note_id,
    decreases rows.len(),
{
    if rows.len() > 0 {
        lemma_collect_notes_distinct(rows.drop_last(), pid);
        let prev = collect_notes(rows.drop_last(), pid);
        let r = rows.last();
        if r.recipe_id == pid && row_has_note(r) && !has_note_id(prev, r.note_id) {
            assert(forall|i: int| 0 <= i < prev.len() ==> #[trigger] prev[i].note_id != r.note_id);
        }
    }
}

pub open spec fn ingredients_sorted(s: Seq<IngredientV>) -> bool {
    forall|i: int, j: int| 0 <= i < j < s.len() ==> ingredient_key(s[i]) <= ingredient_key(s[j])
}

pub open spec fn steps_sorted(s: Seq<StepV>) -> bool {
    forall|i: int, j: int| 0 <= i < j < s.len() ==> step_key(s[i]) <= step_key(s[j])
}

pub open spec fn notes_sorted(s: Seq<NoteV>) -> bool {
    forall|i: int, j: int| 0 <= i < j < s.len() ==> note_key(s[i]) <= note_key(s[j])
}

proof fn lemma_insert_ingredient_sorted(x: IngredientV, s: Seq<IngredientV>)
    requires
        ingredients_sorted(s),
    ensures
        ingredients_sorted(insert_ingredient(x, s)),
        insert_ingredient(x, s).to_multiset() == s.to_multiset().insert(x),
    decreases s.len(),
{
    broadcast use vstd::seq_lib::group_to_multiset_ensures;

    if s.len() == 0 {
        assert(seq![x] =~= Seq::<IngredientV>::empty().push(x));
        assert(Seq::<IngredientV>::empty().to_multiset() =~= Multiset::<IngredientV>::empty());
    } else if ingredient_key(x) < ingredient_key(s.last()) {
        assert(ingredients_sorted(s.drop_last()));
        lemma_insert_ingredient_sorted(x, s.drop_last());
        let t = insert_ingredient(x, s.drop_last());
        assert(forall|i: int|
            0 <= i < t.len() ==> t.to_multiset().contains(#[trigger] t[i])) by {
            assert(forall|i: int|
                0 <= i < t.len() ==> t.to_multiset().count(#[trigger] t[i]) > 0);
        }
        assert(forall|i: int| 0 <= i < t.len() ==> ingredient_key(#[trigger] t[i]) <= ingredient_key(
            s.last(),
        )) by {
            assert(forall|i: int|
                0 <= i < t.len() ==> t.to_multiset().count(#[trigger] t[i]) > 0);
            assert(forall|y: IngredientV|
                s.drop_last().to_multiset().count(y) > 0 ==> exists|k: int|
                    0 <= k < s.drop_last().len() && s.drop_last()[k] == y);
        }
        assert(s =~= s.drop_last().push(s.last()));
    } else {
    }
}

/// Ordering ingredients neither loses nor invents records.
pub proof fn lemma_sort_ingredients_sorted(s: Seq<IngredientV>)
    ensures
        ingredients_sorted(sort_ingredients(s)),
        sort_ingredients(s).to_multiset() == s.to_multiset(),
    decreases s.len(),
{
    broadcast use vstd::seq_lib::group_to_multiset_ensures;

    if s.len() > 0 {
        lemma_sort_ingredients_sorted(s.drop_last());
        lemma_insert_ingredient_sorted(s.last(), sort_ingredients(s.drop_last()));
        assert(s =~= s.drop_last().push(s.last()));
    } else {
        assert(s.to_multiset() =~= Seq::<IngredientV>::empty().to_multiset());
    }
}

proof fn lemma_insert_step_sorted(x: StepV, s: Seq<StepV>)
    requires
        steps_sorted(s),
    ensures
        steps_sorted(insert_step(x, s)),
        insert_step(x, s).to_multiset() == s.to_multiset().insert(x),
    decreases s.len(),
{
    broadcast use vstd::seq_lib::group_to_multiset_ensures;

    if s.len() == 0 {
        assert(seq![x] =~= Seq::<StepV>::empty().push(x));
        assert(Seq::<StepV>::empty().to_multiset() =~= Multiset::<StepV>::empty());
    } else if step_key(x) < step_key(s.last()) {
        assert(steps_sorted(s.drop_last()));
        lemma_insert_step_sorted(x, s.drop_last());
        let t = insert_step(x, s.drop_last());
        assert(forall|i: int| 0 <= i < t.len() ==> step_key(#[trigger] t[i]) <= step_key(
            s.last(),
        )) by {
            assert(forall|i: int|
                0 <= i < t.len() ==> t.to_multiset().count(#[trigger] t[i]) > 0);
            assert(forall|y: StepV|
                s.drop_last().to_multiset().count(y) > 0 ==> exists|k: int|
                    0 <= k < s.drop_last().len() && s.drop_last()[k] == y);
        }
        assert(s =~= s.drop_last().push(s.last()));
    } else {
    }
}

/// Ordering steps neither loses nor invents records.
pub proof fn lemma_sort_steps_sorted(s: Seq<StepV>)
    ensures
        steps_sorted(sort_steps(s)),
        sort_steps(s).to_multiset() == s.to_multiset(),
    decreases s.len(),
{
    broadcast use vstd::seq_lib::group_to_multiset_ensures;

    if s.len() > 0 {
        lemma_sort_steps_sorted(s.drop_last());
        lemma_insert_step_sorted(s.last(), sort_steps(s.drop_last()));
        assert(s =~= s.drop_last().push(s.last()));
    } else {
        assert(s.to_multiset() =~= Seq::<StepV>::empty().to_multiset());
    }
}

proof fn lemma_insert_note_sorted(x: NoteV, s: Seq<NoteV>)
    requires
        notes_sorted(s),
    ensures
        notes_sorted(insert_note(x, s)),
        insert_note(x, s).to_multiset() == s.to_multiset().insert(x),
    decreases s.len(),
{
    broadcast use vstd::seq_lib::group_to_multiset_ensures;

    if s.len() == 0 {
        assert(seq![x] =~= Seq::<NoteV>::empty().push(x));
        assert(Seq::<NoteV>::empty().to_multiset() =~= Multiset::<NoteV>::empty());
    } else if note_key(x) < note_key(s.last()) {
        assert(notes_sorted(s.drop_last()));
        lemma_insert_note_sorted(x, s.drop_last());
        let t = insert_note(x, s.drop_last());
        assert(forall|i: int| 0 <= i < t.len() ==> note_key(#[trigger] t[i]) <= note_key(
            s.last(),
        )) by {
            assert(forall|i: int|
                0 <= i < t.len() ==> t.to_multiset().count(#[trigger] t[i]) > 0);
            assert(forall|y: NoteV|
                s.drop_last().to_multiset().count(y) > 0 ==> exists|k: int|
                    0 <= k < s.drop_last().len() && s.drop_last()[k] == y);
        }
        assert(s =~= s.drop_last().push(s.last()));
    } else {
    }
}

/// Ordering notes neither loses nor invents records.
pub proof fn lemma_sort_notes_sorted(s: Seq<NoteV>)
    ensures
        notes_sorted(sort_notes(s)),
        sort_notes(s).to_multiset() == s.to_multiset(),
    decreases s.len(),
{
    broadcast use vstd::seq_lib::group_to_multiset_ensures;

    if s.len() > 0 {
        lemma_sort_notes_sorted(s.drop_last());
        lemma_insert_note_sorted(s.last(), sort_notes(s.drop_last()));
        assert(s =~= s.drop_last().push(s.last()));
    } else {
        assert(s.to_multiset() =~= Seq::<NoteV>::empty().to_multiset());
    }
}

/// Two equal elements at different places put their value in the
/// multiset at least twice.
proof fn lemma_dup_count<A>(s: Seq<A>, i: int, j: int)
    requires
        0 <= i < j < s.len(),
        s[i] == s[j],
    ensures
        s.to_multiset().count(s[i]) >= 2,
{
    broadcast use vstd::seq_lib::group_to_multiset_ensures;

    assert(s.remove(i)[j - 1] == s[j]);
    assert(s.remove(i).contains(s[j]));
    assert(s.remove(i).to_multiset().count(s[j]) > 0);
    assert(s.remove(i).to_multiset() == s.to_multiset().remove(s[i]));
}

/// A value the multiset holds at least twice sits at two different
/// places.
proof fn lemma_count_two_dup<A>(s: Seq<A>, x: A)
    requires
        s.to_multiset().count(x) >= 2,
    ensures
        exists|i: int, j: int| 0 <= i < j < s.len() && s[i] == x && s[j] == x,
{
    broadcast use vstd::seq_lib::group_to_multiset_ensures;

    assert(s.contains(x));
    let i = choose|i: int| 0 <= i < s.len() && s[i] == x;
    assert(s.remove(i).to_multiset() == s.to_multiset().remove(x));
    assert(s.remove(i).to_multiset().count(x) >= 1);
    assert(s.remove(i).contains(x));
    let j0 = choose|j0: int| 0 <= j0 < s.remove(i).len() && s.remove(i)[j0] == x;
    let j = if j0 < i {
        j0
    } else {
        j0 + 1
    };
    assert(s[j] == x);
    assert(j != i);
    if j < i {
        assert(s[j] == x && s[i] == x);
    } else {
        assert(s[i] == x && s[j] == x);
    }
}

/// Reordering a collection of ingredients with pairwise distinct
/// identifiers keeps the identifiers pairwise distinct.
proof fn lemma_ing_ids_distinct_transfer(a: Seq<IngredientV>, b: Seq<IngredientV>)
    requires
        a.to_multiset() == b.to_multiset(),
        forall|i: int, j: int|
            0 <= i < j < a.len() ==> a[i].recipe_ingredient_id != a[j].recipe_ingredient_id,
    ensures
        forall|i: int, j: int|
            0 <= i < j < b.len() ==> b[i].recipe_ingredient_id != b[j].recipe_ingredient_id,
{
    broadcast use vstd::seq_lib::group_to_multiset_ensures;

    assert forall|i: int, j: int|
        0 <= i < j < b.len() implies b[i].recipe_ingredient_id != b[j].recipe_ingredient_id by {
        if b[i].recipe_ingredient_id == b[j].recipe_ingredient_id {
            if b[i] == b[j] {
                lemma_dup_count(b, i, j);
                lemma_count_two_dup(a, b[i]);
            } else {
                assert(b.contains(b[i]));
                assert(b.contains(b[j]));
                assert(a.to_multiset().count(b[i]) > 0);
                assert(a.to_multiset().count(b[j]) > 0);
                assert(a.contains(b[i]));
                assert(a.contains(b[j]));
                let k1 = choose|k1: int| 0 <= k1 < a.len() && a[k1] == b[i];
                let k2 = choose|k2: int| 0 <= k2 < a.len() && a[k2] == b[j];
                assert(k1 != k2);
                if k1 < k2 {
                    assert(a[k1].recipe_ingredient_id != a[k2].recipe_ingredient_id);
                } else {
                    assert(a[k2].recipe_ingredient_id != a[k1].recipe_ingredient_id);
                }
            }
        }
    }
}

proof fn lemma_step_ids_distinct_transfer(a: Seq<StepV>, b: Seq<StepV>)
    requires
        a.to_multiset() == b.to_multiset(),
        forall|i: int, j: int| 0 <= i < j < a.len() ==> a[i].step_id != a[j].step_id,
    ensures
        forall|i: int, j: int| 0 <= i < j < b.len() ==> b[i].step_id != b[j].step_id,
{
    broadcast use vstd::seq_lib::group_to_multiset_ensures;

    assert forall|i: int, j: int| 0 <= i < j < b.len() implies b[i].step_id != b[j].step_id by {
        if b[i].step_id == b[j].step_id {
            if b[i] == b[j] {
                lemma_dup_count(b, i, j);
                lemma_count_two_dup(a, b[i]);
            } else {
                assert(b.contains(b[i]));
                assert(b.contains(b[j]));
                assert(a.to_multiset().count(b[i]) > 0);
                assert(a.to_multiset().count(b[j]) > 0);
                assert(a.contains(b[i]));
                assert(a.contains(b[j]));
                let k1 = choose|k1: int| 0 <= k1 < a.len() && a[k1] == b[i];
                let k2 = choose|k2: int| 0 <= k2 < a.len() && a[k2] == b[j];
                assert(k1 != k2);
                if k1 < k2 {
                    assert(a[k1].step_id != a[k2].step_id);
                } else {
                    assert(a[k2].step_id != a[k1].step_id);
                }
            }
        }
    }
}

proof fn lemma_note_ids_distinct_transfer(a: Seq<NoteV>, b: Seq<NoteV>)
    requires
        a.to_multiset() == b.to_multiset(),
        forall|i: int, j: int| 0 <= i < j < a.len() ==> a[i].note_id != a[j].note_id,
    ensures
        forall|i: int, j: int| 0 <= i < j < b.len() ==> b[i].note_id != b[j].note_id,
{
    broadcast use vstd::seq_lib::group_to_multiset_ensures;

    assert forall|i: int, j: int| 0 <= i < j < b.len() implies b[i].note_id != b[j].note_id by {
        if b[i].note_id == b[j].note_id {
            if b[i] == b[j] {
                lemma_dup_count(b, i, j);
                lemma_count_two_dup(a, b[i]);
            } else {
                assert(b.contains(b[i]));
                assert(b.contains(b[j]));
                assert(a.to_multiset().count(b[i]) > 0);
                assert(a.to_multiset().count(b[j]) > 0);
                assert(a.contains(b[i]));
                assert(a.contains(b[j]));
                let k1 = choose|k1: int| 0 <= k1 < a.len() && a[k1] == b[i];
                let k2 = choose|k2: int| 0 <= k2 < a.len() && a[k2] == b[j];
                assert(k1 != k2);
                if k1 < k2 {
                    assert(a[k1].note_id != a[k2].note_id);
                } else {
                    assert(a[k2].note_id != a[k1].note_id);
                }
            }
        }
    }
}

/// Dedup law: within one aggregated document the child identifiers are
/// unique per child type, however often the join repeated each child.
pub proof fn lemma_aggregate_child_ids_unique(rows: Seq<JoinRowV>, k: int)
    requires
        0 <= k < aggregate_spec(rows).len(),
    ensures
        forall|i: int, j: int|
            0 <= i < j < aggregate_spec(rows)[k].ingredients.len() ==> aggregate_spec(
                rows,
            )[k].ingredients[i].recipe_ingredient_id != aggregate_spec(
                rows,
            )[k].ingredients[j].recipe_ingredient_id,
        forall|i: int, j: int|
            0 <= i < j < aggregate_spec(rows)[k].steps.len() ==> aggregate_spec(
                rows,
            )[k].steps[i].step_id != aggregate_spec(rows)[k].steps[j].step_id,
        forall|i: int, j: int|
            0 <= i < j < aggregate_spec(rows)[k].notes.len() ==> aggregate_spec(
                rows,
            )[k].notes[i].note_id != aggregate_spec(rows)[k].notes[j].note_id,
{
    let pid = parent_ids(rows)[k];
    lemma_collect_ingredients_distinct(rows, pid);
    lemma_sort_ingredients_sorted(collect_ingredients(rows, pid));
    lemma_ing_ids_distinct_transfer(
        collect_ingredients(rows, pid),
        sort_ingredients(collect_ingredients(rows, pid)),
    );
    lemma_collect_steps_distinct(rows, pid);
    lemma_sort_steps_sorted(collect_steps(rows, pid));
    lemma_step_ids_distinct_transfer(
        collect_steps(rows, pid),
        sort_steps(collect_steps(rows, pid)),
    );
    lemma_collect_notes_distinct(rows, pid);
    lemma_sort_notes_sorted(collect_notes(rows, pid));
    lemma_note_ids_distinct_transfer(
        collect_notes(rows, pid),
        sort_notes(collect_notes(rows, pid)),
    );
}

/// Ordering law: in every aggregated document, whatever the order of the
/// row stream, steps come sorted ascending by step number, and
/// ingredients and notes sorted ascending by their own identifiers.
pub proof fn lemma_aggregate_ordering(rows: Seq<JoinRowV>, k: int)
    requires
        0 <= k < aggregate_spec(rows).len(),
    ensures
        ingredients_sorted(aggregate_spec(rows)[k].ingredients),
        steps_sorted(aggregate_spec(rows)[k].steps),
        notes_sorted(aggregate_spec(rows)[k].notes),
{
    let pid = parent_ids(rows)[k];
    lemma_sort_ingredients_sorted(collect_ingredients(rows, pid));
    lemma_sort_steps_sorted(collect_steps(rows, pid));
    lemma_sort_notes_sorted(collect_notes(rows, pid));
}

/// A recipe identifier with no rows contributes nothing to the collectors.
pub proof fn lemma_collect_of_absent(rows: Seq<JoinRowV>, pid: i32)
    requires
        !contains_pid(rows, pid),
    ensures
        collect_ingredients(rows, pid) == Seq::<IngredientV>::empty(),
        collect_steps(rows, pid) == Seq::<StepV>::empty(),
        collect_notes(rows, pid) == Seq::<NoteV>::empty(),
    decreases rows.len(),
{
    if rows.len() > 0 {
        assert(forall|i: int|
            0 <= i < rows.drop_last().len() ==> rows.drop_last()[i] == rows[i]);
        assert(!contains_pid(rows.drop_last(), pid));
        lemma_collect_of_absent(rows.drop_last(), pid);
        assert(rows.last().recipe_id != pid) by {
            assert(rows[rows.len() - 1] == rows.last());
        }
    }
}

/// Empty-parent law: a recipe whose rows carry no real child columns
/// aggregates to a document with all three collections empty.
pub proof fn lemma_aggregate_empty_children(rows: Seq<JoinRowV>, pid: i32)
    requires
        forall|i: int|
            0 <= i < rows.len() && (#[trigger] rows[i]).recipe_id == pid ==> !row_has_ingredient(
                rows[i],
            ) && !row_has_step(rows[i]) && !row_has_note(rows[i]),
    ensures
        build_recipe(rows, pid).ingredients == Seq::<IngredientV>::empty(),
        build_recipe(rows, pid).steps == Seq::<StepV>::empty(),
        build_recipe(rows, pid).notes == Seq::<NoteV>::empty(),
    decreases rows.len(),
{
    if rows.len() == 0 {
    } else {
        assert(forall|i: int|
            0 <= i < rows.drop_last().len() ==> rows.drop_last()[i] == rows[i]);
        lemma_aggregate_empty_children(rows.drop_last(), pid);
        assert(rows[rows.len() - 1] == rows.last());
        assert(collect_ingredients(rows, pid) == collect_ingredients(rows.drop_last(), pid));
        assert(collect_steps(rows, pid) == collect_steps(rows.drop_last(), pid));
        assert(collect_notes(rows, pid) == collect_notes(rows.drop_last(), pid));
    }
}

// ---------------------------------------------------------------------------
// How one appended row changes the aggregate (used by the executable fold)
// ---------------------------------------------------------------------------

/// Appending a row of an already-seen recipe keeps that recipe's first
/// row; the parent columns do not change.
proof fn lemma_first_row_push_seen(rows: Seq<JoinRowV>, r: JoinRowV, pid: i32)
    requires
        contains_pid(rows, pid),
    ensures
        first_row(rows.push(r), pid) == first_row(rows, pid),
    decreases rows.len(),
{
    assert(rows.len() > 0) by {
        let i = choose|i: int| 0 <= i < rows.len() && rows[i].recipe_id == pid;
    }
    assert(rows.push(r)[0] == rows[0]);
    if rows[0].recipe_id == pid {
    } else {
        assert(rows.push(r).drop_first() =~= rows.drop_first().push(r));
        let i = choose|i: int| 0 <= i < rows.len() && rows[i].recipe_id == pid;
        assert(rows.drop_first()[i - 1].recipe_id == pid);
        assert(contains_pid(rows.drop_first(), pid));
        lemma_first_row_push_seen(rows.drop_first(), r, pid);
    }
}

/// Appending the first row of a new recipe makes it that recipe's first
/// row.
proof fn lemma_first_row_push_new(rows: Seq<JoinRowV>, r: JoinRowV)
    requires
        !contains_pid(rows, r.recipe_id),
    ensures
        first_row(rows.push(r), r.recipe_id) == r,
    decreases rows.len(),
{
    if rows.len() == 0 {
        assert(rows.push(r)[0] == r);
    } else {
        assert(rows.push(r)[0] == rows[0]);
        assert(rows[0].recipe_id != r.recipe_id);
        assert(rows.push(r).drop_first() =~= rows.drop_first().push(r));
        assert(forall|i: int|
            0 <= i < rows.drop_first().len() ==> rows.drop_first()[i] == rows[i + 1]);
        assert(!contains_pid(rows.drop_first(), r.recipe_id));
        lemma_first_row_push_new(rows.drop_first(), r);
    }
}

// ---------------------------------------------------------------------------
// Executable ordering
// ---------------------------------------------------------------------------

fn ingredient_lt(a: &RecipeIngredient, b: &RecipeIngredient) -> (r: bool)
    ensures
        r == (ingredient_key(a@) < ingredient_key(b@)),
{
    match (&a.recipe_ingredient_id, &b.recipe_ingredient_id) {
        (None, Some(_)) => true,
        (Some(x), Some(y)) => *x < *y,
        _ => false,
    }
}

fn step_lt(a: &RecipeStep, b: &RecipeStep) -> (r: bool)
    ensures
        r == (step_key(a@) < step_key(b@)),
{
    a.step_number < b.step_number
}

fn note_lt(a: &RecipeNote, b: &RecipeNote) -> (r: bool)
    ensures
        r == (note_key(a@) < note_key(b@)),
{
    match (&a.note_id, &b.note_id) {
        (None, Some(_)) => true,
        (Some(x), Some(y)) => *x < *y,
        _ => false,
    }
}

fn insert_ingredient_exec(x: RecipeIngredient, s: Vec<RecipeIngredient>) -> (r: Vec<
    RecipeIngredient,
>)
    ensures
        r.deep_view() == insert_ingredient(x@, s.deep_view()),
    decreases s.len(),
{
    let ghost sv = s.deep_view();
    let mut s = s;
    if s.len() == 0 {
        s.push(x);
        proof {
            assert(s.deep_view() =~~= insert_ingredient(x@, sv));
        }
        s
    } else if ingredient_lt(&x, &s[s.len() - 1]) {
        proof {
            assert(s@[s@.len() - 1]@ == sv.last());
        }
        let l = s.remove(s.len() - 1);
        proof {
            assert(s.deep_view() =~= sv.drop_last());
        }
        let mut r = insert_ingredient_exec(x, s);
        r.push(l);
        proof {
            assert(r.deep_view() =~~= insert_ingredient(x@, sv));
        }
        r
    } else {
        proof {
            assert(s@[s@.len() - 1]@ == sv.last());
        }
        s.push(x);
        proof {
            assert(s.deep_view() =~~= insert_ingredient(x@, sv));
        }
        s
    }
}

fn sort_ingredients_exec(v: Vec<RecipeIngredient>) -> (r: Vec<RecipeIngredient>)
    ensures
        r.deep_view() == sort_ingredients(v.deep_view()),
    decreases v.len(),
{
    let ghost vv = v.deep_view();
    let mut v = v;
    match v.pop() {
        None => {
            proof {
                assert(vv =~= Seq::<IngredientV>::empty());
            }
            v
        },
        Some(x) => {
            proof {
                assert(v.deep_view() =~= vv.drop_last());
                assert(x@ == vv.last());
            }
            let s = sort_ingredients_exec(v);
            insert_ingredient_exec(x, s)
        },
    }
}

fn insert_step_exec(x: RecipeStep, s: Vec<RecipeStep>) -> (r: Vec<RecipeStep>)
    ensures
        r.deep_view() == insert_step(x@, s.deep_view()),
    decreases s.len(),
{
    let ghost sv = s.deep_view();
    let mut s = s;
    if s.len() == 0 {
        s.push(x);
        proof {
            assert(s.deep_view() =~~= insert_step(x@, sv));
        }
        s
    } else if step_lt(&x, &s[s.len() - 1]) {
        proof {
            assert(s@[s@.len() - 1]@ == sv.last());
        }
        let l = s.remove(s.len() - 1);
        proof {
            assert(s.deep_view() =~= sv.drop_last());
        }
        let mut r = insert_step_exec(x, s);
        r.push(l);
        proof {
            assert(r.deep_view() =~~= insert_step(x@, sv));
        }
        r
    } else {
        proof {
            assert(s@[s@.len() - 1]@ == sv.last());
        }
        s.push(x);
        proof {
            assert(s.deep_view() =~~= insert_step(x@, sv));
        }
        s
    }
}

fn sort_steps_exec(v: Vec<RecipeStep>) -> (r: Vec<RecipeStep>)
    ensures
        r.deep_view() == sort_steps(v.deep_view()),
    decreases v.len(),
{
    let ghost vv = v.deep_view();
    let mut v = v;
    match v.pop() {
        None => {
            proof {
                assert(vv =~= Seq::<StepV>::empty());
            }
            v
        },
        Some(x) => {
            proof {
                assert(v.deep_view() =~= vv.drop_last());
                assert(x@ == vv.last());
            }
            let s = sort_steps_exec(v);
            insert_step_exec(x, s)
        },
    }
}

fn insert_note_exec(x: RecipeNote, s: Vec<RecipeNote>) -> (r: Vec<RecipeNote>)
    ensures
        r.deep_view() == insert_note(x@, s.deep_view()),
    decreases s.len(),
{
    let ghost sv = s.deep_view();
    let mut s = s;
    if s.len() == 0 {
        s.push(x);
        proof {
            assert(s.deep_view() =~~= insert_note(x@, sv));
        }
        s
    } else if note_lt(&x, &s[s.len() - 1]) {
        proof {
            assert(s@[s@.len() - 1]@ == sv.last());
        }
        let l = s.remove(s.len() - 1);
        proof {
            assert(s.deep_view() =~= sv.drop_last());
        }
        let mut r = insert_note_exec(x, s);
        r.push(l);
        proof {
            assert(r.deep_view() =~~= insert_note(x@, sv));
        }
        r
    } else {
        proof {
            assert(s@[s@.len() - 1]@ == sv.last());
        }
        s.push(x);
        proof {
            assert(s.deep_view() =~~= insert_note(x@, sv));
        }
        s
    }
}

fn sort_notes_exec(v: Vec<RecipeNote>) -> (r: Vec<RecipeNote>)
    ensures
        r.deep_view() == sort_notes(v.deep_view()),
    decreases v.len(),
{
    let ghost vv = v.deep_view();
    let mut v = v;
    match v.pop() {
        None => {
            proof {
                assert(vv =~= Seq::<NoteV>::empty());
            }
            v
        },
        Some(x) => {
            proof {
                assert(v.deep_view() =~= vv.drop_last());
                assert(x@ == vv.last());
            }
            let s = sort_notes_exec(v);
            insert_note_exec(x, s)
        },
    }
}

// ---------------------------------------------------------------------------
// The executable fold
// ---------------------------------------------------------------------------

fn opt_i32_eq(a: Option<i32>, b: Option<i32>) -> (r: bool)
    ensures
        r == (a == b),
{
    match (a, b) {
        (None, None) => true,
        (Some(x), Some(y)) => x == y,
        _ => false,
    }
}

fn has_ingredient_id_exec(v: &Vec<RecipeIngredient>, id: Option<i32>) -> (r: bool)
    ensures
        r == has_ingredient_id(v.deep_view(), id),
{
    let mut k: usize = 0;
    while k < v.len()
        invariant
            k <= v@.len(),
            forall|i: int| 0 <= i < k as int ==> v.deep_view()[i].recipe_ingredient_id != id,
        decreases v@.len() - k,
    {
        if opt_i32_eq(v[k].recipe_ingredient_id, id) {
            proof {
                assert(v.deep_view()[k as int].recipe_ingredient_id == id);
            }
            return true;
        }
        proof {
            assert(v.deep_view()[k as int].recipe_ingredient_id != id);
        }
        k = k + 1;
    }
    false
}

fn has_step_id_exec(v: &Vec<RecipeStep>, id: Option<i32>) -> (r: bool)
    ensures
        r == has_step_id(v.deep_view(), id),
{
    let mut k: usize = 0;
    while k < v.len()
        invariant
            k <= v@.len(),
            forall|i: int| 0 <= i < k as int ==> v.deep_view()[i].step_id != id,
        decreases v@.len() - k,
    {
        if opt_i32_eq(v[k].step_id, id) {
            proof {
                assert(v.deep_view()[k as int].step_id == id);
            }
            return true;
        }
        proof {
            assert(v.deep_view()[k as int].step_id != id);
        }
        k = k + 1;
    }
    false
}

fn has_note_id_exec(v: &Vec<RecipeNote>, id: Option<i32>) -> (r: bool)
    ensures
        r == has_note_id(v.deep_view(), id),
{
    let mut k: usize = 0;
    while k < v.len()
        invariant
            k <= v@.len(),
            forall|i: int| 0 <= i < k as int ==> v.deep_view()[i].note_id != id,
        decreases v@.len() - k,
    {
        if opt_i32_eq(v[k].note_id, id) {
            proof {
                assert(v.deep_view()[k as int].note_id == id);
            }
            return true;
        }
        proof {
            assert(v.deep_view()[k as int].note_id != id);
        }
        k = k + 1;
    }
    false
}

fn find_entry(acc: &Vec<FullRecipe>, pid: i32) -> (r: Option<usize>)
    ensures
        (match r {
            Some(i) => i < acc@.len() && acc.deep_view()[i as int].recipe_id == Some(pid),
            None => forall|i: int|
                0 <= i < acc@.len() ==> acc.deep_view()[i].recipe_id != Some(pid),
        }),
{
    let mut k: usize = 0;
    while k < acc.len()
        invariant
            k <= acc@.len(),
            forall|i: int| 0 <= i < k as int ==> acc.deep_view()[i].recipe_id != Some(pid),
        decreases acc@.len() - k,
    {
        if opt_i32_eq(acc[k].recipe_id, Some(pid)) {
            proof {
                assert(acc.deep_view()[k as int].recipe_id == Some(pid));
            }
            return Some(k);
        }
        proof {
            assert(acc.deep_view()[k as int].recipe_id != Some(pid));
        }
        k = k + 1;
    }
    None
}

fn clone_opt_string(o: &Option<String>) -> (r: Option<String>)
    ensures
        r.deep_view() == o.deep_view(),
{
    match o {
        Some(s) => Some(s.clone()),
        None => None,
    }
}

fn row_ingredient_exec(r: &JoinRow) -> (x: RecipeIngredient)
    ensures
        x@ == row_ingredient(r@),
{
    RecipeIngredient {
        recipe_ingredient_id: r.ingredient_id,
        recipe_id: r.recipe_id,
        ingredient_name: r.ingredient_name.clone(),
        quantity: clone_opt_string(&r.quantity),
        unit: clone_opt_string(&r.unit),
        created_at: clone_opt_string(&r.created_at),
        updated_at: clone_opt_string(&r.updated_at),
    }
}

fn row_step_exec(r: &JoinRow) -> (x: RecipeStep)
    ensures
        x@ == row_step(r@),
{
    RecipeStep {
        step_id: r.step_id,
        recipe_id: r.recipe_id,
        step_number: r.step_number,
        instructions: r.instructions.clone(),
        created_at: clone_opt_string(&r.created_at),
        updated_at: clone_opt_string(&r.updated_at),
    }
}

fn row_note_exec(r: &JoinRow) -> (x: RecipeNote)
    ensures
        x@ == row_note(r@),
{
    RecipeNote {
        note_id: r.note_id,
        recipe_id: r.recipe_id,
        note: r.note.clone(),
        created_at: clone_opt_string(&r.created_at),
        updated_at: clone_opt_string(&r.updated_at),
    }
}

/// Folds a join-row stream into one document per recipe: children
/// deduplicated by identifier and ordered, parents in order of first
/// appearance.
pub fn aggregate_rows(rows: &Vec<JoinRow>) -> (r: Vec<FullRecipe>)
    ensures
        r.deep_view() == aggregate_spec(rows.deep_view()),
{
    let ghost all = rows.deep_view();
    let mut acc: Vec<FullRecipe> = Vec::new();
    let mut k: usize = 0;
    proof {
        assert(all.take(0) =~= Seq::<JoinRowV>::empty());
    }
    while k < rows.len()
        invariant
            k <= rows@.len(),
            all == rows.deep_view(),
            acc@.len() == parent_ids(all.take(k as int)).len(),
            forall|i: int|
                0 <= i < acc@.len() ==> (#[trigger] acc@[i])@ == partial_recipe(
                    all.take(k as int),
                    parent_ids(all.take(k as int))[i],
                ),
        decreases rows@.len() - k,
    {
        let ghost pref = all.take(k as int);
        let ghost prefn = all.take(k + 1 as int);
        let ghost rv = all[k as int];
        proof {
            assert(rows@[k as int]@ == all[k as int]);
            assert(prefn.drop_last() =~= pref);
            assert(prefn.last() == rv);
            assert(prefn =~= pref.push(rv));
            lemma_parent_ids_distinct(pref);
        }
        let row = &rows[k];
        let pid = row.recipe_id;
        match find_entry(&acc, pid) {
            Some(idx) => {
                proof {
                    // The recipe is already listed: its identifier is in the
                    // prefix and the identifier list does not change.
                    assert(acc@[idx as int]@ == partial_recipe(pref, parent_ids(pref)[idx as int]));
                    assert(parent_ids(pref)[idx as int] == pid);
                    assert(parent_ids(pref).contains(pid));
                    lemma_parent_ids_contains(pref, pid);
                    assert(parent_ids(prefn) == parent_ids(pref));
                    lemma_first_row_push_seen(pref, rv, pid);
                    assert(first_row(prefn, pid) == first_row(pref, pid));
                }
                let mut e = acc.remove(idx);
                proof {
                    assert(e@ == partial_recipe(pref, pid));
                }
                if match row.ingredient_id {
                    Some(id) => id > 0,
                    None => false,
                } {
                    if !has_ingredient_id_exec(&e.ingredients, row.ingredient_id) {
                        e.ingredients.push(row_ingredient_exec(row));
                    }
                }
                if match row.step_id {
                    Some(id) => id > 0,
                    None => false,
                } {
                    if !has_step_id_exec(&e.steps, row.step_id) {
                        e.steps.push(row_step_exec(row));
                    }
                }
                if match row.note_id {
                    Some(id) => id > 0,
                    None => false,
                } {
                    if !has_note_id_exec(&e.notes, row.note_id) {
                        e.notes.push(row_note_exec(row));
                    }
                }
                proof {
                    assert(e.ingredients.deep_view() =~= collect_ingredients(prefn, pid));
                    assert(e.steps.deep_view() =~= collect_steps(prefn, pid));
                    assert(e.notes.deep_view() =~= collect_notes(prefn, pid));
                    assert(e@ =~~= partial_recipe(prefn, pid));
                }
                acc.insert(idx, e);
                proof {
                    // Entries of other recipes are untouched by this row.
                    assert(forall|i: int|
                        0 <= i < acc@.len() && i != idx as int ==> parent_ids(pref)[i] != pid);
                    assert forall|i: int|
                        0 <= i < acc@.len() && i != idx as int implies #[trigger] partial_recipe(
                        prefn,
                        parent_ids(pref)[i],
                    ) == partial_recipe(pref, parent_ids(pref)[i]) by {
                        let opid = parent_ids(pref)[i];
                        assert(parent_ids(pref).contains(opid));
                        lemma_parent_ids_contains(pref, opid);
                        lemma_first_row_push_seen(pref, rv, opid);
                    }
                }
            },
            None => {
                proof {
                    // A recipe first seen at this row: it joins the list and
                    // its document starts from this row's columns.
                    assert forall|i: int|
                        0 <= i < parent_ids(pref).len() implies #[trigger] parent_ids(pref)[i]
                        != pid by {
                        assert(acc.deep_view()[i] == acc@[i]@);
                        assert(acc@[i]@.recipe_id == Some(parent_ids(pref)[i]));
                    }
                    assert(!parent_ids(pref).contains(pid));
                    lemma_parent_ids_contains(pref, pid);
                    assert(parent_ids(prefn) =~= parent_ids(pref).push(pid));
                    lemma_first_row_push_new(pref, rv);
                    assert(first_row(prefn, pid) == rv);
                    lemma_collect_of_absent(pref, pid);
                    assert forall|i: int|
                        0 <= i < acc@.len() implies #[trigger] partial_recipe(
                        prefn,
                        parent_ids(pref)[i],
                    ) == partial_recipe(pref, parent_ids(pref)[i]) by {
                        let opid = parent_ids(pref)[i];
                        assert(parent_ids(pref).contains(opid));
                        lemma_parent_ids_contains(pref, opid);
                        lemma_first_row_push_seen(pref, rv, opid);
                    }
                }
                let mut e = FullRecipe {
                    recipe_id: Some(row.recipe_id),
                    name: row.name.clone(),
                    description: clone_opt_string(&row.description),
                    prep_time_minutes: row.prep_time_minutes,
                    servings: row.servings,
                    main_photo: clone_opt_string(&row.main_photo),
                    created_at: clone_opt_string(&row.created_at),
                    updated_at: clone_opt_string(&row.updated_at),
                    ingredients: Vec::new(),
                    steps: Vec::new(),
                    notes: Vec::new(),
                };
                if match row.ingredient_id {
                    Some(id) => id > 0,
                    None => false,
                } {
                    e.ingredients.push(row_ingredient_exec(row));
                }
                if match row.step_id {
                    Some(id) => id > 0,
                    None => false,
                } {
                    e.steps.push(row_step_exec(row));
                }
                if match row.note_id {
                    Some(id) => id > 0,
                    None => false,
                } {
                    e.notes.push(row_note_exec(row));
                }
                proof {
                    assert(e.ingredients.deep_view() =~= collect_ingredients(prefn, pid));
                    assert(e.steps.deep_view() =~= collect_steps(prefn, pid));
                    assert(e.notes.deep_view() =~= collect_notes(prefn, pid));
                    assert(e@ =~~= partial_recipe(prefn, pid));
                }
                acc.push(e);
            },
        }
        k = k + 1;
    }
    proof {
        assert(all.take(all.len() as int) =~= all);
    }
    // Order each document's children.
    let ghost accv = acc.deep_view();
    proof {
        assert(forall|i: int| 0 <= i < acc@.len() ==> accv[i] == (#[trigger] acc@[i])@);
    }
    let mut out: Vec<FullRecipe> = Vec::new();
    while acc.len() > 0
        invariant
            out@.len() + acc@.len() == accv.len(),
            forall|i: int|
                0 <= i < acc@.len() ==> (#[trigger] acc@[i])@ == accv[out@.len() + i],
            forall|i: int|
                0 <= i < out@.len() ==> (#[trigger] out@[i])@ == (FullRecipeV {
                    ingredients: sort_ingredients(accv[i].ingredients),
                    steps: sort_steps(accv[i].steps),
                    notes: sort_notes(accv[i].notes),
                    ..accv[i]
                }),
        decreases acc@.len(),
    {
        let ghost j = out@.len() as int;
        let ghost prevq = acc@;
        let e = acc.remove(0);
        proof {
            assert(prevq.remove(0) =~= prevq.drop_first());
            assert(acc@ =~= prevq.drop_first());
            assert(e@ == accv[j]);
            assert(forall|i: int|
                0 <= i < acc@.len() ==> (#[trigger] acc@[i]) == prevq[i + 1]);
        }
        let FullRecipe {
            recipe_id,
            name,
            description,
            prep_time_minutes,
            servings,
            main_photo,
            created_at,
            updated_at,
            ingredients,
            steps,
            notes,
        } = e;
        let sorted = FullRecipe {
            recipe_id,
            name,
            description,
            prep_time_minutes,
            servings,
            main_photo,
            created_at,
            updated_at,
            ingredients: sort_ingredients_exec(ingredients),
            steps: sort_steps_exec(steps),
            notes: sort_notes_exec(notes),
        };
        proof {
            assert(sorted@ =~~= (FullRecipeV {
                ingredients: sort_ingredients(accv[j].ingredients),
                steps: sort_steps(accv[j].steps),
                notes: sort_notes(accv[j].notes),
                ..accv[j]
            }));
        }
        out.push(sorted);
    }
    proof {
        assert(out.deep_view() =~~= aggregate_spec(all));
    }
    out
}

} // verus!
