//! Small text helpers of the application: shortening display strings and
//! mapping image MIME types to file extensions.

use vstd::prelude::*;

verus! {

broadcast use vstd::seq::group_seq_axioms, vstd::std_specs::vec::group_vec_axioms;

/// How many bytes one character takes in UTF-8.
pub open spec fn char_utf8_len(c: char) -> int {
    if (c as u32) < 0x80 {
        1
    } else if (c as u32) < 0x800 {
        2
    } else if (c as u32) < 0x10000 {
        3
    } else {
        4
    }
}

/// The UTF-8 byte length of a character sequence.
pub open spec fn utf8_len(s: Seq<char>) -> int
    decreases s.len(),
{
    if s.len() == 0 {
        0
    } else {
        char_utf8_len(s[0]) + utf8_len(s.drop_first())
    }
}

/// How many leading characters fit in a budget of `limit` bytes.
pub open spec fn chars_fitting(s: Seq<char>, limit: int) -> int
    decreases s.len(),
{
    if s.len() == 0 {
        0
    } else if char_utf8_len(s[0]) <= limit {
        1 + chars_fitting(s.drop_first(), limit - char_utf8_len(s[0]))
    } else {
        0
    }
}

proof fn lemma_utf8_len_nonneg(s: Seq<char>)
    ensures
        utf8_len(s) >= 0,
    decreases s.len(),
{
    if s.len() > 0 {
        lemma_utf8_len_nonneg(s.drop_first());
    }
}

/// A longer prefix never takes fewer bytes.
proof fn lemma_utf8_len_mono(s: Seq<char>, k: int)
    requires
        0 <= k <= s.len(),
    ensures
        utf8_len(s.take(k)) <= utf8_len(s),
    decreases s.len(),
{
    if s.len() == 0 || k == 0 {
        assert(s.take(0) =~= Seq::<char>::empty());
        lemma_utf8_len_nonneg(s);
    } else {
        assert(s.take(k)[0] == s[0]);
        assert(s.take(k).drop_first() =~= s.drop_first().take(k - 1));
        lemma_utf8_len_mono(s.drop_first(), k - 1);
    }
}

/// Shortens a string to at most `limit` bytes of its text plus an
/// ellipsis: the whole string when it already fits, otherwise the longest
/// character prefix within the byte budget, followed by `...` (the cut
/// never splits a character).
pub fn truncate_str_with_ellipsis(input: &str, limit: usize) -> (r: String)
    ensures
        utf8_len(input@) <= limit ==> r@ == input@,
        utf8_len(input@) > limit ==> r@ == input@.take(chars_fitting(input@, limit as int))
            + "..."@,
{
    let cs = crate::json::str_to_chars(input);
    // First pass: does the whole text fit?
    let mut total: u64 = 0;
    let mut k: usize = 0;
    let mut fits = true;
    proof {
        assert(cs@.take(0) =~= Seq::<char>::empty());
    }
    while fits && k < cs.len()
        invariant
            k <= cs@.len(),
            cs@ == input@,
            fits ==> total == utf8_len(cs@.take(k as int)) && total <= limit,
            !fits ==> utf8_len(input@) > limit,
        decreases (if fits { 1int } else { 0int }), cs@.len() - k,
    {
        let c = cs[k];
        let w: u64 = char_width(c);
        proof {
            let t1 = cs@.take(k + 1 as int);
            lemma_take_snoc_utf8(cs@, k as int);
        }
        if w > (limit as u64) - total {
            proof {
                assert(utf8_len(cs@.take(k + 1 as int)) > limit);
                lemma_utf8_len_mono(cs@, k + 1);
                assert(cs@.take(cs@.len() as int) =~= cs@);
            }
            fits = false;
        } else {
            total = total + w;
            k = k + 1;
        }
    }
    proof {
        if fits {
            assert(cs@.take(cs@.len() as int) =~= cs@);
        }
    }
    if fits {
        let r = crate::json::chars_to_string(&cs);
        r
    } else {
        // Second pass: keep the longest character prefix within budget.
        let mut rem: usize = limit;
        let mut cut: usize = 0;
        proof {
            assert(cs@.skip(0) =~= cs@);
        }
        while cut < cs.len() && char_width_usize(cs[cut]) <= rem
            invariant
                cut <= cs@.len(),
                cs@ == input@,
                rem <= limit,
                chars_fitting(cs@, limit as int) == cut + chars_fitting(
                    cs@.skip(cut as int),
                    rem as int,
                ),
            decreases cs@.len() - cut,
        {
            proof {
                assert(cs@.skip(cut as int)[0] == cs@[cut as int]);
                assert(cs@.skip(cut as int).drop_first() =~= cs@.skip(cut + 1 as int));
            }
            rem = rem - char_width_usize(cs[cut]);
            cut = cut + 1;
        }
        proof {
            if cut < cs@.len() {
                assert(cs@.skip(cut as int)[0] == cs@[cut as int]);
                assert(chars_fitting(cs@.skip(cut as int), rem as int) == 0);
            } else {
                assert(cs@.skip(cut as int).len() == 0);
            }
            assert(chars_fitting(cs@, limit as int) == cut);
        }
        let mut out: Vec<char> = Vec::new();
        let mut k2: usize = 0;
        while k2 < cut
            invariant
                k2 <= cut <= cs@.len(),
                out@ =~= cs@.subrange(0, k2 as int),
            decreases cut - k2,
        {
            out.push(cs[k2]);
            proof {
                assert(out@ =~= cs@.subrange(0, k2 + 1 as int));
            }
            k2 = k2 + 1;
        }
        out.push('.');
        out.push('.');
        out.push('.');
        proof {
            reveal_strlit("...");
            assert(out@ =~= input@.take(chars_fitting(input@, limit as int)) + "..."@);
        }
        crate::json::chars_to_string(&out)
    }
}

/// `utf8_len` over a prefix grows by the width of the appended character.
proof fn lemma_take_snoc_utf8(s: Seq<char>, k: int)
    requires
        0 <= k < s.len(),
    ensures
        utf8_len(s.take(k + 1)) == utf8_len(s.take(k)) + char_utf8_len(s[k]),
    decreases k,
{
    if k == 0 {
        assert(s.take(1) =~= seq![s[0]]);
        assert(s.take(1).drop_first() =~= Seq::<char>::empty());
        assert(s.take(0) =~= Seq::<char>::empty());
    } else {
        assert(s.take(k + 1)[0] == s[0]);
        assert(s.take(k + 1).drop_first() =~= s.drop_first().take(k));
        assert(s.take(k)[0] == s[0]);
        assert(s.take(k).drop_first() =~= s.drop_first().take(k - 1));
        assert(s.drop_first()[k - 1] == s[k]);
        lemma_take_snoc_utf8(s.drop_first(), k - 1);
    }
}

fn char_width(c: char) -> (w: u64)
    ensures
        w == char_utf8_len(c),
        1 <= w <= 4,
{
    let u = c as u32;
    if u < 0x80 {
        1
    } else if u < 0x800 {
        2
    } else if u < 0x10000 {
        3
    } else {
        4
    }
}

fn char_width_usize(c: char) -> (w: usize)
    ensures
        w == char_utf8_len(c),
        1 <= w <= 4,
{
    let u = c as u32;
    if u < 0x80 {
        1
    } else if u < 0x800 {
        2
    } else if u < 0x10000 {
        3
    } else {
        4
    }
}

// ---------------------------------------------------------------------------
// Upload MIME types
// ---------------------------------------------------------------------------

/// The file extension an accepted image MIME type maps to, if any.
pub open spec fn extension_of(mime: Seq<char>) -> Option<Seq<char>> {
    if mime == "image/png"@ {
        Some("png"@)
    } else if mime == "image/jpeg"@ {
        Some("jpeg"@)
    } else if mime == "image/jpg"@ {
        Some("jpg"@)
    } else if mime == "image/webp"@ {
        Some("webp"@)
    } else {
        None
    }
}

/// Maps an uploaded image's MIME type to the stored file's extension;
/// unsupported types (and anything else) are rejected.
pub fn get_file_extension(mime: &str) -> (r: Option<&'static str>)
    ensures
        (match r {
            Some(e) => extension_of(mime@) == Some(e@),
            None => extension_of(mime@) is None,
        }),
{
    let m = String::from_str(mime);
    if m == String::from_str("image/png") {
        Some("png")
    } else if m == String::from_str("image/jpeg") {
        Some("jpeg")
    } else if m == String::from_str("image/jpg") {
        Some("jpg")
    } else if m == String::from_str("image/webp") {
        Some("webp")
    } else {
        None
    }
}

} // verus!
