//! The address to connect to, as a user types it.

use vstd::prelude::*;

verus! {

/// Whether `c` has the Unicode property `White_Space`.
pub open spec fn is_white_space(c: char) -> bool {
    ||| '\u{9}' <= c <= '\u{d}'
    ||| c == '\u{20}'
    ||| c == '\u{85}'
    ||| c == '\u{a0}'
    ||| c == '\u{1680}'
    ||| '\u{2000}' <= c <= '\u{200a}'
    ||| c == '\u{2028}'
    ||| c == '\u{2029}'
    ||| c == '\u{202f}'
    ||| c == '\u{205f}'
    ||| c == '\u{3000}'
}

/// `text` without the white space at its start.
pub open spec fn trimmed_start(text: Seq<char>) -> Seq<char>
    decreases text.len(),
{
    if text.len() > 0 && is_white_space(text.first()) {
        trimmed_start(text.drop_first())
    } else {
        text
    }
}

/// `text` without the white space at its end.
pub open spec fn trimmed_end(text: Seq<char>) -> Seq<char>
    decreases text.len(),
{
    if text.len() > 0 && is_white_space(text.last()) {
        trimmed_end(text.drop_last())
    } else {
        text
    }
}

/// `str::trim` takes the white space off both ends of a string, in the sense of
/// the Unicode property `White_Space`.
#[verifier::external_body]
fn trim<'a>(text: &'a str) -> (res: &'a str)
    ensures
        res@ == trimmed_end(trimmed_start(text@)),
{
    text.trim()
}

/// Returns the address that `typed` holds, without the white space around it.
///
/// # Errors
///
/// Returns what to tell the user if nothing else was typed.
pub fn connection_address(typed: &str) -> (res: Result<String, String>)
    ensures
        match res {
            Ok(address) => address@ == trimmed_end(trimmed_start(typed@)) && address@.len() > 0,
            Err(text) => trimmed_end(trimmed_start(typed@)).len() == 0 && text@
                == "Connection address required"@,
        },
{
    let trimmed: &str = trim(typed);
    if trimmed.is_empty() {
        Err("Connection address required".to_owned())
    } else {
        Ok(trimmed.to_owned())
    }
}

/// White space is what Unicode lists as such.
pub proof fn white_space_is_what_unicode_lists(c: char)
    ensures
        is_white_space(c) <==> {
            ||| 0x9 <= c as u32 <= 0xd
            ||| c as u32 == 0x20
            ||| c as u32 == 0x85
            ||| c as u32 == 0xa0
            ||| c as u32 == 0x1680
            ||| 0x2000 <= c as u32 <= 0x200a
            ||| c as u32 == 0x2028
            ||| c as u32 == 0x2029
            ||| c as u32 == 0x202f
            ||| c as u32 == 0x205f
            ||| c as u32 == 0x3000
        },
{
}

/// What is left at the start is all from the first character on that is not white
/// space.
proof fn lemma_trimmed_start(text: Seq<char>) -> (start: int)
    ensures
        0 <= start <= text.len(),
        trimmed_start(text) == text.skip(start),
        forall|i: int| 0 <= i < start ==> is_white_space(#[trigger] text[i]),
        start < text.len() ==> !is_white_space(text[start]),
    decreases text.len(),
{
    if text.len() > 0 && is_white_space(text.first()) {
        let rest = text.drop_first();
        let start = lemma_trimmed_start(rest);
        assert(rest.skip(start) =~= text.skip(start + 1));
        assert forall|i: int| 0 <= i < start + 1 implies is_white_space(#[trigger] text[i]) by {
            if i > 0 {
                assert(rest[i - 1] == text[i]);
            }
        }
        start + 1
    } else {
        assert(text.skip(0) =~= text);
        0
    }
}

/// What is left at the end is all up to the last character that is not white
/// space.
proof fn lemma_trimmed_end(text: Seq<char>) -> (end: int)
    ensures
        0 <= end <= text.len(),
        trimmed_end(text) == text.take(end),
        forall|i: int| end <= i < text.len() ==> is_white_space(#[trigger] text[i]),
        0 < end ==> !is_white_space(text[end - 1]),
    decreases text.len(),
{
    if text.len() > 0 && is_white_space(text.last()) {
        let rest = text.drop_last();
        let end = lemma_trimmed_end(rest);
        assert(rest.take(end) =~= text.take(end));
        assert forall|i: int| end <= i < text.len() implies is_white_space(#[trigger] text[i]) by {
            if i < rest.len() {
                assert(rest[i] == text[i]);
            }
        }
        end
    } else {
        assert(text.take(text.len() as int) =~= text);
        text.len() as int
    }
}

/// The address is one piece of what was typed: all around it is white space, and
/// it neither starts nor ends with any. There is none exactly if only white
/// space was typed.
pub proof fn address_is_typed_between_white_space(typed: Seq<char>) -> (bounds: (int, int))
    ensures
        0 <= bounds.0 <= bounds.1 <= typed.len(),
        trimmed_end(trimmed_start(typed)) == typed.subrange(bounds.0, bounds.1),
        forall|i: int|
            0 <= i < bounds.0 || bounds.1 <= i < typed.len() ==> is_white_space(#[trigger] typed[i]),
        bounds.0 < bounds.1 ==> !is_white_space(typed[bounds.0]) && !is_white_space(
            typed[bounds.1 - 1],
        ),
        trimmed_end(trimmed_start(typed)).len() == 0 <==> forall|i: int|
            0 <= i < typed.len() ==> is_white_space(#[trigger] typed[i]),
{
    let start = lemma_trimmed_start(typed);
    let rest = typed.skip(start);
    let end = lemma_trimmed_end(rest);
    assert(rest.take(end) =~= typed.subrange(start, start + end));
    assert forall|i: int| start + end <= i < typed.len() implies is_white_space(
        #[trigger] typed[i],
    ) by {
        assert(rest[i - start] == typed[i]);
    }
    (start, start + end)
}

} // verus!
