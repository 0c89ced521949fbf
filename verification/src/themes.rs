//! The export themes: a stylesheet per theme and the HTML document built
//! from an aggregated recipe, as handed to the document-conversion
//! service.

use vstd::prelude::*;

use crate::json::print_int;
use crate::model::{IngredientV, NoteV, Recipe, RecipeIngredient, RecipeNote, RecipeStep, RecipeV,
    StepV};

verus! {

broadcast use vstd::seq::group_seq_axioms, vstd::std_specs::vec::group_vec_axioms;

/// The stylesheet a PDF export is rendered with.
#[derive(Clone, Copy, Debug, PartialEq, Eq, Hash, Structural)]
pub enum PdfTheme {
    Simple,
    Fresh,
    Dark,
    Pink,
}

impl Default for PdfTheme {
    fn default() -> (r: PdfTheme)
        ensures
            r == PdfTheme::Simple,
    {
        PdfTheme::Simple
    }
}

/// The text named no theme; it carries the rejected value.
#[derive(Clone, Debug, PartialEq)]
pub struct ParsePdfThemeError {
    pub invalid_value: String,
}

pub const SIMPLE_THEME_STYLE: &'static str = "<style> body { font-family: Arial, sans-serif; margin: 40px; line-height: 1.6; color: #333; background-color: #fff; } h1 { color: #2c3e50; border-bottom: 2px solid #ecf0f1; padding-bottom: 5px; margin-top: 40px; } p { margin: 10px 0; } .recipe-meta { font-style: italic; color: #7f8c8d; } .ingredient { padding: 6px; background: #f9f9f9; border-left: 4px solid #3498db; margin: 5px 0; } .step { background: #ecf0f1; padding: 10px; border-radius: 5px; margin: 10px 0; } .note { background: #fef9e7; padding: 10px; border-left: 4px solid #f1c40f; margin: 10px 0; } footer { text-align: center; margin-top: 30px; font-size: 14px; color: #7f8c8d; font-style: italic; border-top: 1px solid #ecf0f1; padding-top: 12px; } footer a { text-decoration: none; color: inherit; } </style>";

pub const FRESH_THEME_STYLE: &'static str = "<style> body { font-family: 'Segoe UI', Tahoma, Geneva, Verdana, sans-serif; margin: 50px; line-height: 1.8; background-color: #fff; color: #2d3436; } h1 { font-size: 26px; color: #00cec9; border-bottom: 3px solid #dfe6e9; padding-bottom: 5px; margin-top: 40px; } p { margin: 10px 0; } .recipe-meta { font-size: 15px; color: #636e72; } .ingredient { background: #dff9fb; border-left: 6px solid #00b894; padding: 10px; margin: 8px 0; font-weight: 500; } .step { background: #ffeaa7; padding: 12px; border-radius: 6px; margin: 10px 0; border: 1px dashed #fdcb6e; } .note { background: #fab1a0; padding: 10px; margin: 10px 0; border-left: 5px solid #e17055; color: #2d3436; } footer { text-align: center; margin-top: 30px; font-size: 14px; color: #00b894; font-style: italic; border-top: 1px dashed #dfe6e9; padding-top: 12px; } footer a { text-decoration: none; color: inherit; } </style>";

pub const DARK_THEME_STYLE: &'static str = "<style> body { font-family: 'Roboto', sans-serif; background-color: #1e1e1e; color: #f1f1f1; margin: 40px; line-height: 1.6; } h1 { color: #f39c12; border-bottom: 2px solid #444; padding-bottom: 5px; margin-top: 40px; } p { margin: 10px 0; } .recipe-meta { font-size: 14px; color: #aaa; font-style: italic; } .ingredient { background: #2c2c2c; padding: 10px; border-left: 4px solid #2980b9; margin: 6px 0; font-size: 15px; } .step { background: #3b3b3b; padding: 12px; border-radius: 5px; margin: 12px 0; border-left: 4px solid #9b59b6; } .note { background: #444; padding: 10px; border-left: 4px solid #f1c40f; margin: 10px 0; font-size: 14px; } footer { text-align: center; margin-top: 30px; font-size: 14px; color: #f39c12; font-style: italic; border-top: 1px dashed #444; padding-top: 12px; } footer a { text-decoration: none; color: inherit; } </style>";

pub const PINK_THEME_STYLE: &'static str = "<style> body { font-family: 'Georgia', serif; background-color: #fff0f5; color: #4b2e2e; margin: 40px; line-height: 1.7; } h1 { font-size: 26px; color: #d63384; border-bottom: 2px dashed #f8bbd0; padding-bottom: 6px; margin-top: 40px; } p { margin: 10px 0; } .recipe-meta { font-size: 15px; color: #a05265; font-style: italic; margin-top: -10px; } .ingredient { padding: 10px 14px; background-color: #ffe4ec; border-left: 5px solid #e75480; margin: 8px 0; border-radius: 6px; font-size: 15px; } .step { background-color: #fce4ec; padding: 12px; border: 1px solid #f8bbd0; border-radius: 6px; margin: 12px 0; font-size: 15px; } .note { background-color: #f9d5e5; padding: 10px; border-left: 5px solid #d63384; margin: 10px 0; font-style: italic; font-size: 14px; color: #5a2c2c; } footer { text-align: center; margin-top: 30px; font-size: 14px; color: #d63384; font-style: italic; border-top: 1px dashed #f8bbd0; padding-top: 12px; } footer a { text-decoration: none; color: inherit; } </style>";

/// The display name of a theme.
pub open spec fn theme_name(t: PdfTheme) -> Seq<char> {
    match t {
        PdfTheme::Simple => "Simple"@,
        PdfTheme::Fresh => "Fresh"@,
        PdfTheme::Dark => "Dark"@,
        PdfTheme::Pink => "Pink"@,
    }
}

/// The stylesheet of a theme.
pub open spec fn theme_style(t: PdfTheme) -> Seq<char> {
    match t {
        PdfTheme::Simple => SIMPLE_THEME_STYLE@,
        PdfTheme::Fresh => FRESH_THEME_STYLE@,
        PdfTheme::Dark => DARK_THEME_STYLE@,
        PdfTheme::Pink => PINK_THEME_STYLE@,
    }
}

pub fn simple_theme() -> (r: &'static str)
    ensures
        r@ == SIMPLE_THEME_STYLE@,
{
    SIMPLE_THEME_STYLE
}

pub fn fresh_theme() -> (r: &'static str)
    ensures
        r@ == FRESH_THEME_STYLE@,
{
    FRESH_THEME_STYLE
}

pub fn dark_theme() -> (r: &'static str)
    ensures
        r@ == DARK_THEME_STYLE@,
{
    DARK_THEME_STYLE
}

pub fn pink_theme() -> (r: &'static str)
    ensures
        r@ == PINK_THEME_STYLE@,
{
    PINK_THEME_STYLE
}

impl PdfTheme {
    /// The display name, as the UI shows it.
    pub fn name(&self) -> (r: &'static str)
        ensures
            r@ == theme_name(*self),
    {
        match self {
            PdfTheme::Simple => "Simple",
            PdfTheme::Fresh => "Fresh",
            PdfTheme::Dark => "Dark",
            PdfTheme::Pink => "Pink",
        }
    }

    /// The stylesheet embedded in the export document.
    pub fn get_style(&self) -> (r: &'static str)
        ensures
            r@ == theme_style(*self),
    {
        match self {
            PdfTheme::Simple => simple_theme(),
            PdfTheme::Fresh => fresh_theme(),
            PdfTheme::Dark => dark_theme(),
            PdfTheme::Pink => pink_theme(),
        }
    }

    /// Parses a theme from its display name, ignoring surrounding
    /// whitespace (the Unicode White_Space set, as the standard trim
    /// removes); any other text is rejected and echoed back.
    pub fn from_str(s: &str) -> (r: Result<PdfTheme, ParsePdfThemeError>)
        ensures
            (match r {
                Ok(t) => trim_spec(s@) == theme_name(t),
                Err(e) => {
                    &&& e.invalid_value@ == s@
                    &&& trim_spec(s@) != theme_name(PdfTheme::Simple)
                    &&& trim_spec(s@) != theme_name(PdfTheme::Fresh)
                    &&& trim_spec(s@) != theme_name(PdfTheme::Dark)
                    &&& trim_spec(s@) != theme_name(PdfTheme::Pink)
                },
            }),
    {
        let trimmed = trim(s);
        if trimmed == String::from_str("Simple") {
            Ok(PdfTheme::Simple)
        } else if trimmed == String::from_str("Fresh") {
            Ok(PdfTheme::Fresh)
        } else if trimmed == String::from_str("Dark") {
            Ok(PdfTheme::Dark)
        } else if trimmed == String::from_str("Pink") {
            Ok(PdfTheme::Pink)
        } else {
            Err(ParsePdfThemeError { invalid_value: String::from_str(s) })
        }
    }
}

// ---------------------------------------------------------------------------
// Trimming
// ---------------------------------------------------------------------------

/// The Unicode White_Space set, which the standard trim removes.
pub open spec fn is_trim_ws(c: char) -> bool {
    let u = c as u32;
    ||| u == 0x09
    ||| u == 0x0a
    ||| u == 0x0b
    ||| u == 0x0c
    ||| u == 0x0d
    ||| u == 0x20
    ||| u == 0x85
    ||| u == 0xa0
    ||| u == 0x1680
    ||| (0x2000 <= u && u <= 0x200a)
    ||| u == 0x2028
    ||| u == 0x2029
    ||| u == 0x202f
    ||| u == 0x205f
    ||| u == 0x3000
}

fn is_space_char(c: char) -> (r: bool)
    ensures
        r == is_trim_ws(c),
{
    let u = c as u32;
    u == 0x09 || u == 0x0a || u == 0x0b || u == 0x0c || u == 0x0d || u == 0x20 || u == 0x85
        || u == 0xa0 || u == 0x1680 || (0x2000 <= u && u <= 0x200a) || u == 0x2028 || u == 0x2029
        || u == 0x202f || u == 0x205f || u == 0x3000
}

pub open spec fn trim_start_spec(s: Seq<char>) -> Seq<char>
    decreases s.len(),
{
    if s.len() > 0 && is_trim_ws(s[0]) {
        trim_start_spec(s.drop_first())
    } else {
        s
    }
}

pub open spec fn trim_end_spec(s: Seq<char>) -> Seq<char>
    decreases s.len(),
{
    if s.len() > 0 && is_trim_ws(s.last()) {
        trim_end_spec(s.drop_last())
    } else {
        s
    }
}

/// `s` without leading and trailing whitespace.
pub open spec fn trim_spec(s: Seq<char>) -> Seq<char> {
    trim_end_spec(trim_start_spec(s))
}

/// Strips leading and trailing whitespace.
fn trim(s: &str) -> (r: String)
    ensures
        r@ == trim_spec(s@),
{
    let cs = crate::json::str_to_chars(s);
    proof {
        assert(cs@.skip(0) =~= cs@);
    }
    let mut a: usize = 0;
    while a < cs.len() && is_space_char(cs[a])
        invariant
            a <= cs@.len(),
            trim_start_spec(s@) == trim_start_spec(cs@.skip(a as int)),
            cs@ == s@,
        decreases cs@.len() - a,
    {
        proof {
            assert(cs@.skip(a as int)[0] == cs@[a as int]);
            assert(cs@.skip(a as int).drop_first() =~= cs@.skip(a + 1 as int));
        }
        a = a + 1;
    }
    proof {
        if a < cs@.len() {
            assert(cs@.skip(a as int)[0] == cs@[a as int]);
        }
        assert(trim_start_spec(cs@.skip(a as int)) == cs@.skip(a as int));
    }
    let mut b: usize = cs.len();
    while b > a && is_space_char(cs[b - 1])
        invariant
            a <= b <= cs@.len(),
            cs@ == s@,
            trim_start_spec(s@) == cs@.skip(a as int),
            trim_end_spec(cs@.skip(a as int)) == trim_end_spec(cs@.subrange(a as int, b as int)),
        decreases b,
    {
        proof {
            let cur = cs@.subrange(a as int, b as int);
            assert(cur.last() == cs@[b - 1]);
            assert(cur.drop_last() =~= cs@.subrange(a as int, b - 1));
        }
        b = b - 1;
    }
    proof {
        let cur = cs@.subrange(a as int, b as int);
        if b > a {
            assert(cur.last() == cs@[b - 1]);
        }
        assert(trim_end_spec(cur) == cur);
        assert(cs@.skip(cs@.len() as int).len() == 0);
    }
    let mut out: Vec<char> = Vec::new();
    let mut k: usize = a;
    while k < b
        invariant
            a <= k <= b <= cs@.len(),
            out@ =~= cs@.subrange(a as int, k as int),
        decreases b - k,
    {
        out.push(cs[k]);
        proof {
            assert(out@ =~= cs@.subrange(a as int, k + 1 as int));
        }
        k = k + 1;
    }
    proof {
        assert(out@ =~= cs@.subrange(a as int, b as int));
    }
    crate::json::chars_to_string(&out)
}

// ---------------------------------------------------------------------------
// The export document
// ---------------------------------------------------------------------------

/// A present string, or nothing (as the export renders absent fields).
pub open spec fn opt_text(o: Option<Seq<char>>) -> Seq<char> {
    match o {
        Some(s) => s,
        None => Seq::empty(),
    }
}

/// A present number, or 0 (as the export renders absent numbers).
pub open spec fn opt_num(o: Option<i32>) -> int {
    match o {
        Some(i) => i as int,
        None => 0,
    }
}

/// The heading block: the recipe's name and its meta line.
pub open spec fn meta_html(r: RecipeV) -> Seq<char> {
    "<h1>"@ + r.name + "</h1><p class=\"recipe-meta\">"@ + opt_text(r.description) + " ("@
        + print_int(opt_num(r.servings)) + " servings, "@ + print_int(opt_num(r.prep_time_minutes))
        + "min)</p>"@
}

pub open spec fn ingredient_html(x: IngredientV) -> Seq<char> {
    if x.quantity is Some || x.unit is Some {
        "<p class=\"ingredient\">"@ + opt_text(x.quantity) + " "@ + opt_text(x.unit) + " - "@
            + x.ingredient_name + "</p>"@
    } else {
        "<p class=\"ingredient\">"@ + x.ingredient_name + "</p>"@
    }
}

pub open spec fn ingredients_html(l: Seq<IngredientV>) -> Seq<char>
    decreases l.len(),
{
    if l.len() == 0 {
        Seq::empty()
    } else {
        ingredients_html(l.drop_last()) + ingredient_html(l.last())
    }
}

/// The ingredient section, with a placeholder when there are none.
pub open spec fn ingredients_section(l: Seq<IngredientV>) -> Seq<char> {
    "<h1>Ingredients</h1>"@ + if l.len() == 0 {
        "<p>No Ingredients...</p>"@
    } else {
        ingredients_html(l)
    }
}

pub open spec fn step_html(x: StepV) -> Seq<char> {
    "<p class=\"step\">"@ + x.instructions + "</p>"@
}

pub open spec fn steps_html(l: Seq<StepV>) -> Seq<char>
    decreases l.len(),
{
    if l.len() == 0 {
        Seq::empty()
    } else {
        steps_html(l.drop_last()) + step_html(l.last())
    }
}

pub open spec fn steps_section(l: Seq<StepV>) -> Seq<char> {
    "<h1>Steps</h1>"@ + if l.len() == 0 {
        "<p>No Steps...</p>"@
    } else {
        steps_html(l)
    }
}

pub open spec fn note_html(x: NoteV) -> Seq<char> {
    "<p class=\"note\">"@ + x.note + "</p>"@
}

pub open spec fn notes_html(l: Seq<NoteV>) -> Seq<char>
    decreases l.len(),
{
    if l.len() == 0 {
        Seq::empty()
    } else {
        notes_html(l.drop_last()) + note_html(l.last())
    }
}

pub open spec fn notes_section(l: Seq<NoteV>) -> Seq<char> {
    "<h1>Notes</h1>"@ + if l.len() == 0 {
        "<p>No Notes...</p>"@
    } else {
        notes_html(l)
    }
}

/// The whole export document for one recipe under one theme.
pub open spec fn export_html(
    r: RecipeV,
    ings: Seq<IngredientV>,
    sts: Seq<StepV>,
    nts: Seq<NoteV>,
    theme: PdfTheme,
) -> Seq<char> {
    "<!DOCTYPE html><html lang=\"en\"><head><meta charset=\"UTF-8\"><title>Recipe Export</title>"@
        + theme_style(theme)
        + "</head><body>"@
        + meta_html(r)
        + ingredients_section(ings)
        + steps_section(sts)
        + notes_section(nts)
        + "<footer><a href=\"https://github.com/mariinkys/cocookies\" target=\"_blank\">Made with Cocookies</a></footer></body></html>"@
}

fn append_opt(out: &mut String, o: &Option<String>)
    ensures
        final(out)@ == old(out)@ + opt_text(o.deep_view()),
{
    match o {
        Some(s) => {
            out.append(s.as_str());
        },
        None => {
            proof {
                assert(out@ =~= old(out)@ + opt_text(o.deep_view()));
            }
        },
    }
}

fn append_num(out: &mut String, o: &Option<i32>)
    ensures
        final(out)@ == old(out)@ + print_int(opt_num(*o)),
{
    let v: i64 = match o {
        Some(i) => *i as i64,
        None => 0,
    };
    let mut digits: Vec<char> = Vec::new();
    crate::json::write_int(v, &mut digits);
    let text = crate::json::chars_to_string(&digits);
    out.append(text.as_str());
}

/// Builds the HTML document handed to the document-conversion service:
/// the recipe's heading, its ingredient, step and note sections, under
/// the chosen theme's stylesheet.
#[verifier::rlimit(100)]
pub fn render_export_html(
    recipe: &Recipe,
    ingredients: &Vec<RecipeIngredient>,
    steps: &Vec<RecipeStep>,
    notes: &Vec<RecipeNote>,
    theme: PdfTheme,
) -> (r: String)
    ensures
        r@ == export_html(
            recipe@,
            ingredients.deep_view(),
            steps.deep_view(),
            notes.deep_view(),
            theme,
        ),
{
    let mut out = String::new();
    out.append(
        "<!DOCTYPE html><html lang=\"en\"><head><meta charset=\"UTF-8\"><title>Recipe Export</title>",
    );
    out.append(theme.get_style());
    out.append("</head><body>");
    // Heading
    out.append("<h1>");
    out.append(recipe.name.as_str());
    out.append("</h1><p class=\"recipe-meta\">");
    append_opt(&mut out, &recipe.description);
    out.append(" (");
    append_num(&mut out, &recipe.servings);
    out.append(" servings, ");
    append_num(&mut out, &recipe.prep_time_minutes);
    out.append("min)</p>");
    // Ingredients
    out.append("<h1>Ingredients</h1>");
    if ingredients.len() == 0 {
        out.append("<p>No Ingredients...</p>");
    } else {
        let ghost base = out@;
        let mut k: usize = 0;
        proof {
            assert(ingredients.deep_view().take(0) =~= Seq::<IngredientV>::empty());
            assert(base + Seq::<char>::empty() =~= base);
        }
        while k < ingredients.len()
            invariant
                k <= ingredients@.len(),
                out@ == base + ingredients_html(ingredients.deep_view().take(k as int)),
            decreases ingredients@.len() - k,
        {
            let ghost iv = ingredients.deep_view();
            proof {
                assert(ingredients@[k as int]@ == iv[k as int]);
                assert(iv.take(k + 1 as int).drop_last() =~= iv.take(k as int));
                assert(iv.take(k + 1 as int).last() == iv[k as int]);
            }
            let x = &ingredients[k];
            if x.quantity.is_some() || x.unit.is_some() {
                out.append("<p class=\"ingredient\">");
                append_opt(&mut out, &x.quantity);
                out.append(" ");
                append_opt(&mut out, &x.unit);
                out.append(" - ");
                out.append(x.ingredient_name.as_str());
                out.append("</p>");
            } else {
                out.append("<p class=\"ingredient\">");
                out.append(x.ingredient_name.as_str());
                out.append("</p>");
            }
            proof {
                assert(out@ =~= base + ingredients_html(iv.take(k + 1 as int)));
            }
            k = k + 1;
        }
        proof {
            assert(ingredients.deep_view().take(ingredients@.len() as int)
                =~= ingredients.deep_view());
        }
    }
    // Steps
    out.append("<h1>Steps</h1>");
    if steps.len() == 0 {
        out.append("<p>No Steps...</p>");
    } else {
        let ghost base = out@;
        let mut k: usize = 0;
        proof {
            assert(steps.deep_view().take(0) =~= Seq::<StepV>::empty());
            assert(base + Seq::<char>::empty() =~= base);
        }
        while k < steps.len()
            invariant
                k <= steps@.len(),
                out@ == base + steps_html(steps.deep_view().take(k as int)),
            decreases steps@.len() - k,
        {
            let ghost tv = steps.deep_view();
            proof {
                assert(steps@[k as int]@ == tv[k as int]);
                assert(tv.take(k + 1 as int).drop_last() =~= tv.take(k as int));
                assert(tv.take(k + 1 as int).last() == tv[k as int]);
            }
            out.append("<p class=\"step\">");
            out.append(steps[k].instructions.as_str());
            out.append("</p>");
            proof {
                assert(out@ =~= base + steps_html(tv.take(k + 1 as int)));
            }
            k = k + 1;
        }
        proof {
            assert(steps.deep_view().take(steps@.len() as int) =~= steps.deep_view());
        }
    }
    // Notes
    out.append("<h1>Notes</h1>");
    if notes.len() == 0 {
        out.append("<p>No Notes...</p>");
    } else {
        let ghost base = out@;
        let mut k: usize = 0;
        proof {
            assert(notes.deep_view().take(0) =~= Seq::<NoteV>::empty());
            assert(base + Seq::<char>::empty() =~= base);
        }
        while k < notes.len()
            invariant
                k <= notes@.len(),
                out@ == base + notes_html(notes.deep_view().take(k as int)),
            decreases notes@.len() - k,
        {
            let ghost nv = notes.deep_view();
            proof {
                assert(notes@[k as int]@ == nv[k as int]);
                assert(nv.take(k + 1 as int).drop_last() =~= nv.take(k as int));
                assert(nv.take(k + 1 as int).last() == nv[k as int]);
            }
            out.append("<p class=\"note\">");
            out.append(notes[k].note.as_str());
            out.append("</p>");
            proof {
                assert(out@ =~= base + notes_html(nv.take(k + 1 as int)));
            }
            k = k + 1;
        }
        proof {
            assert(notes.deep_view().take(notes@.len() as int) =~= notes.deep_view());
        }
    }
    out.append(
        "<footer><a href=\"https://github.com/mariinkys/cocookies\" target=\"_blank\">Made with Cocookies</a></footer></body></html>",
    );
    proof {
        assert(out@ =~= export_html(
            recipe@,
            ingredients.deep_view(),
            steps.deep_view(),
            notes.deep_view(),
            theme,
        ));
    }
    out
}

} // verus!
