use vstd::prelude::*;

use vstd::utf8::encode_utf8;

use crate::capacity::spec_contract_error;
use crate::error::{contract_violation, LowerError};
use crate::span::Span;
use crate::text::chars_of;

verus! {

/// `needle` occurs in `haystack` starting at character `i`.
pub open spec fn matches_at(haystack: Seq<char>, needle: Seq<char>, i: int) -> bool {
    0 <= i && i + needle.len() <= haystack.len() && haystack.subrange(i, i + needle.len()) == needle
}

/// The first character position from `i` on where `needle` occurs.
pub open spec fn first_match_from(haystack: Seq<char>, needle: Seq<char>, i: int) -> Option<int>
    decreases haystack.len() + 1 - i,
{
    if i < 0 || i + needle.len() > haystack.len() {
        None
    } else if matches_at(haystack, needle, i) {
        Some(i)
    } else {
        first_match_from(haystack, needle, i + 1)
    }
}

/// The last character position up to `i` where `needle` occurs.
pub open spec fn last_match_from(haystack: Seq<char>, needle: Seq<char>, i: int) -> Option<int>
    decreases i + 1,
{
    if i < 0 {
        None
    } else if matches_at(haystack, needle, i) {
        Some(i)
    } else {
        last_match_from(haystack, needle, i - 1)
    }
}

/// The character position of the first (or last) occurrence of `needle`.
pub open spec fn spec_find(haystack: Seq<char>, needle: Seq<char>, find_last: bool) -> Option<int> {
    if find_last {
        last_match_from(haystack, needle, haystack.len() - needle.len())
    } else {
        first_match_from(haystack, needle, 0)
    }
}

/// The UTF-8 byte offset, as the host counts it, of character `i`.
pub open spec fn byte_offset(haystack: Seq<char>, i: int) -> usize {
    encode_utf8(haystack.take(i)).len() as usize
}

/// Whether `needle` occurs at character position `i` of `h`.
fn occurs_at(h: &Vec<char>, n: &Vec<char>, i: usize) -> (b: bool)
    requires
        i + n@.len() <= h@.len(),
    ensures
        b == matches_at(h@, n@, i as int),
{
    proof {
        assert(h.len() == h@.len());
    }
    let mut j: usize = 0;
    while j < n.len()
        invariant
            j <= n@.len(),
            i + n@.len() <= h@.len(),
            h@.len() <= usize::MAX,
            forall|k: int| 0 <= k < j ==> h@[i + k] == n@[k],
        decreases n@.len() - j,
    {
        if h[i + j] != n[j] {
            proof {
                assert(h@.subrange(i as int, i + n@.len())[j as int] != n@[j as int]);
            }
            return false;
        }
        j = j + 1;
    }
    proof {
        assert(h@.subrange(i as int, i + n@.len()) =~= n@);
    }
    true
}

/// The one-based UTF-8 byte position of the first (or, with `find_last`,
/// the last) occurrence of `needle` in `haystack`, or 0 when it does not
/// occur (Modelica `Strings.find` / `findLast`).
pub fn find_string_special_value(find_last: bool, haystack: &str, needle: &str, span: Span) -> (r:
    Result<usize, LowerError>)
    ensures
        match r {
            Ok(v) => match spec_find(haystack@, needle@, find_last) {
                Some(i) => byte_offset(haystack@, i) < usize::MAX && v == byte_offset(haystack@, i) + 1,
                None => v == 0,
            },
            Err(e) => spec_find(haystack@, needle@, find_last) matches Some(i) && byte_offset(
                haystack@,
                i,
            ) == usize::MAX && spec_contract_error(
                e,
                "Modelica string find result index overflows"@,
                span,
            ),
        },
{
    let h = chars_of(haystack);
    let n = chars_of(needle);
    proof {
        assert(h.len() == h@.len());
    }
    let mut found: Option<usize> = None;
    if n.len() <= h.len() {
        let last = h.len() - n.len();
        if find_last {
            let mut i: usize = last;
            loop
                invariant_except_break
                    found is None,
                    spec_find(h@, n@, true) == last_match_from(h@, n@, i as int),
                invariant
                    i <= last,
                    last + n@.len() == h@.len(),
                    h@ == haystack@,
                    n@ == needle@,
                ensures
                    found matches Some(j) ==> spec_find(h@, n@, true) == Some(j as int) && j <= last,
                    found is None ==> spec_find(h@, n@, true) is None,
                decreases i,
            {
                if occurs_at(&h, &n, i) {
                    found = Some(i);
                    break;
                }
                if i == 0 {
                    proof {
                        assert(last_match_from(h@, n@, -1) is None);
                    }
                    break;
                }
                i = i - 1;
            }
        } else {
            let mut i: usize = 0;
            loop
                invariant_except_break
                    found is None,
                    spec_find(h@, n@, false) == first_match_from(h@, n@, i as int),
                invariant
                    i <= last,
                    last + n@.len() == h@.len(),
                    h@ == haystack@,
                    n@ == needle@,
                ensures
                    found matches Some(j) ==> spec_find(h@, n@, false) == Some(j as int) && j <= last,
                    found is None ==> spec_find(h@, n@, false) is None,
                decreases last - i,
            {
                if occurs_at(&h, &n, i) {
                    found = Some(i);
                    break;
                }
                if i == last {
                    proof {
                        assert(first_match_from(h@, n@, i + 1) is None);
                    }
                    break;
                }
                i = i + 1;
            }
        }
    } else {
        proof {
            if find_last {
                assert(last_match_from(h@, n@, h@.len() - n@.len()) is None);
            } else {
                assert(first_match_from(h@, n@, 0) is None);
            }
        }
    }
    match found {
        None => Ok(0),
        Some(i) => {
            let prefix = haystack.substring_char(0, i);
            proof {
                assert(prefix@ =~= haystack@.take(i as int));
            }
            let offset = prefix.len();
            if offset == usize::MAX {
                Err(contract_violation(String::from_str("Modelica string find result index overflows"), span))
            } else {
                Ok(offset + 1)
            }
        },
    }
}

} // verus!
