use vstd::prelude::*;

use crate::capacity::{reserve_capacity, spec_capacity_error, spec_contract_error, vec_with_capacity};
use crate::dims::{
    checked_product, checked_usize_dims_to_i64, checked_usize_scalar_count, i64_ints,
    lemma_checked_product_is_product, product, usize_ints,
};
use crate::error::LowerError;
use crate::shape::{projection_indices_for_dims, row_major_indices};
use crate::span::Span;
use crate::text::{chars_of, decimal, digit_char, join, usize_to_decimal};

verus! {

/// The decimal texts of one-based indices.
pub open spec fn index_parts(indices: Seq<int>) -> Seq<Seq<char>> {
    indices.map_values(|i: int| decimal(i as nat))
}

/// The binding key of an element: the base name followed by its indices in
/// brackets, separated by commas (`x[1,3]`); the base alone without indices.
pub open spec fn spec_subscript_key(base: Seq<char>, indices: Seq<int>) -> Seq<char> {
    if indices.len() == 0 {
        base
    } else {
        base + "["@ + join(index_parts(indices), ","@) + "]"@
    }
}

/// The binding key of the element of `base` at one-based `indices`.
pub fn format_subscript_binding_key(base: &str, indices: &[usize]) -> (key: String)
    ensures
        key@ == spec_subscript_key(base@, usize_ints(indices@)),
{
    let mut key = String::from_str(base);
    if indices.len() == 0 {
        return key;
    }
    key.append("[");
    let ghost parts = index_parts(usize_ints(indices@));
    let mut i: usize = 0;
    let mut body = String::new();
    while i < indices.len()
        invariant
            i <= indices@.len(),
            parts == index_parts(usize_ints(indices@)),
            body@ == join(parts.take(i as int), ","@),
        decreases indices@.len() - i,
    {
        let digits = usize_to_decimal(indices[i]);
        if i > 0 {
            body.append(",");
        }
        body.append(digits.as_str());
        proof {
            assert(parts.take(i + 1).drop_last() =~= parts.take(i as int));
            assert(parts[i as int] == decimal(indices@[i as int] as nat));
            if i == 0 {
                assert(parts.take(1) =~= seq![parts[0]]);
            }
        }
        i = i + 1;
    }
    proof {
        assert(parts.take(indices@.len() as int) =~= parts);
    }
    key.append(body.as_str());
    key.append("]");
    key
}

/// A decimal digit.
pub open spec fn is_digit(c: char) -> bool {
    '0' <= c && c <= '9'
}

/// The value of a run of decimal digits.
pub open spec fn digits_value(s: Seq<char>) -> nat
    decreases s.len(),
{
    if s.len() == 0 {
        0
    } else {
        digits_value(s.drop_last()) * 10 + ((s.last() as nat) - ('0' as nat)) as nat
    }
}

/// `s` without its leading spaces.
pub open spec fn strip_leading_spaces(s: Seq<char>) -> Seq<char>
    decreases s.len(),
{
    if s.len() > 0 && s[0] == ' ' {
        strip_leading_spaces(s.drop_first())
    } else {
        s
    }
}

/// `s` without its trailing spaces.
pub open spec fn strip_trailing_spaces(s: Seq<char>) -> Seq<char>
    decreases s.len(),
{
    if s.len() > 0 && s.last() == ' ' {
        strip_trailing_spaces(s.drop_last())
    } else {
        s
    }
}

/// One subscript of a scalar name: optional surrounding spaces, an
/// optional `+`, and decimal digits whose value is a positive `i64` that
/// fits `usize`.
pub open spec fn parse_index_item(item: Seq<char>) -> Option<usize> {
    let t = strip_trailing_spaces(strip_leading_spaces(item));
    if t.len() > 0 && t[0] == '+' {
        parse_positive_digits(t.drop_first())
    } else {
        parse_positive_digits(t)
    }
}

/// Decimal digits whose value is a positive `i64` that fits `usize`.
pub open spec fn parse_positive_digits(d: Seq<char>) -> Option<usize> {
    if d.len() > 0 && (forall|i: int| 0 <= i < d.len() ==> is_digit(#[trigger] d[i])) && 1
        <= digits_value(d) <= i64::MAX && digits_value(d) <= usize::MAX {
        Some(digits_value(d) as usize)
    } else {
        None
    }
}

/// The position of the first `c` in `s`.
pub open spec fn first_index_of(s: Seq<char>, c: char) -> Option<int>
    decreases s.len(),
{
    if s.len() == 0 {
        None
    } else if s[0] == c {
        Some(0)
    } else {
        match first_index_of(s.drop_first(), c) {
            Some(i) => Some(i + 1),
            None => None,
        }
    }
}

/// The position of the last `c` in `s`.
pub open spec fn last_index_of(s: Seq<char>, c: char) -> Option<int>
    decreases s.len(),
{
    if s.len() == 0 {
        None
    } else if s.last() == c {
        Some(s.len() - 1)
    } else {
        last_index_of(s.drop_last(), c)
    }
}

/// The comma-separated subscripts of a scalar name, each parsed.
pub open spec fn parse_index_items(s: Seq<char>) -> Option<Seq<usize>>
    decreases s.len(),
{
    match first_index_of(s, ',') {
        None => match parse_index_item(s) {
            Some(v) => Some(seq![v]),
            None => None,
        },
        Some(c) => if 0 <= c < s.len() {
            match (parse_index_item(s.take(c)), parse_index_items(s.skip(c + 1))) {
                (Some(v), Some(rest)) => Some(seq![v] + rest),
                _ => None,
            }
        } else {
            None
        },
    }
}

/// A scalar element name `base[i1, ..., in]`: the base before the last
/// `[` (not empty) and the positive subscripts between it and the closing
/// `]` that ends the name.
pub open spec fn spec_parse_indexed_binding_key(key: Seq<char>) -> Option<(Seq<char>, Seq<usize>)> {
    if key.len() == 0 || key.last() != ']' {
        None
    } else {
        match last_index_of(key.drop_last(), '[') {
            None => None,
            Some(b) => if b <= 0 {
                None
            } else {
                match parse_index_items(key.subrange(b + 1, key.len() - 1)) {
                    Some(indices) => Some((key.take(b), indices)),
                    None => None,
                }
            },
        }
    }
}

proof fn lemma_first_index_of_is(s: Seq<char>, c: char, k: int)
    requires
        0 <= k <= s.len(),
        forall|j: int| 0 <= j < k ==> s[j] != c,
        k < s.len() ==> s[k] == c,
    ensures
        first_index_of(s, c) == (if k < s.len() {
            Some(k)
        } else {
            None::<int>
        }),
    decreases k,
{
    if k > 0 {
        lemma_first_index_of_is(s.drop_first(), c, k - 1);
    }
}

proof fn lemma_last_index_of_is(s: Seq<char>, c: char, k: int)
    requires
        -1 <= k < s.len(),
        forall|j: int| k < j < s.len() ==> s[j] != c,
        k >= 0 ==> s[k] == c,
    ensures
        last_index_of(s, c) == (if k >= 0 {
            Some(k)
        } else {
            None::<int>
        }),
    decreases s.len(),
{
    if s.len() > 0 && s.len() - 1 != k {
        lemma_last_index_of_is(s.drop_last(), c, k);
    }
}

proof fn lemma_strip_leading_at(s: Seq<char>, k: int)
    requires
        0 <= k <= s.len(),
        forall|j: int| 0 <= j < k ==> s[j] == ' ',
    ensures
        strip_leading_spaces(s) == strip_leading_spaces(s.skip(k)),
    decreases k,
{
    if k > 0 {
        assert(s.drop_first().skip(k - 1) =~= s.skip(k));
        lemma_strip_leading_at(s.drop_first(), k - 1);
    } else {
        assert(s.skip(0) =~= s);
    }
}

proof fn lemma_strip_trailing_at(s: Seq<char>, k: int)
    requires
        0 <= k <= s.len(),
        forall|j: int| k <= j < s.len() ==> s[j] == ' ',
    ensures
        strip_trailing_spaces(s) == strip_trailing_spaces(s.take(k)),
    decreases s.len() - k,
{
    if k < s.len() {
        assert(s.drop_last().take(k) =~= s.take(k));
        lemma_strip_trailing_at(s.drop_last(), k);
    } else {
        assert(s.take(k) =~= s);
    }
}

proof fn lemma_digits_value_prefix(s: Seq<char>, k: int)
    requires
        0 <= k <= s.len(),
    ensures
        digits_value(s.take(k)) <= digits_value(s),
    decreases s.len() - k,
{
    if k < s.len() {
        lemma_digits_value_prefix(s.drop_last(), k);
        assert(s.drop_last().take(k) =~= s.take(k));
    } else {
        assert(s.take(k) =~= s);
    }
}

/// The subscript between positions `lo` and `hi` of `chars`.
fn parse_index_item_at(chars: &Vec<char>, lo: usize, hi: usize) -> (r: Option<usize>)
    requires
        lo <= hi <= chars@.len(),
    ensures
        r == parse_index_item(chars@.subrange(lo as int, hi as int)),
{
    let ghost item = chars@.subrange(lo as int, hi as int);
    let mut a = lo;
    while a < hi && chars[a] == ' '
        invariant
            lo <= a <= hi,
            hi <= chars@.len(),
            forall|j: int| lo <= j < a ==> chars@[j] == ' ',
        decreases hi - a,
    {
        a = a + 1;
    }
    proof {
        lemma_strip_leading_at(item, a - lo);
        assert(item.skip(a - lo) =~= chars@.subrange(a as int, hi as int));
        if a < hi {
            assert(chars@.subrange(a as int, hi as int)[0] != ' ');
        }
    }
    let mut b = hi;
    while b > a && chars[b - 1] == ' '
        invariant
            a <= b <= hi,
            hi <= chars@.len(),
            forall|j: int| b <= j < hi ==> chars@[j] == ' ',
        decreases b - a,
    {
        b = b - 1;
    }
    let ghost t = chars@.subrange(a as int, b as int);
    proof {
        let sa = chars@.subrange(a as int, hi as int);
        lemma_strip_trailing_at(sa, b - a);
        assert(sa.take(b - a) =~= t);
        if b > a {
            assert(t.last() != ' ');
        }
        assert(strip_trailing_spaces(strip_leading_spaces(item)) == t);
    }
    let mut start = a;
    if start < b && chars[start] == '+' {
        start = start + 1;
    }
    let ghost d = chars@.subrange(start as int, b as int);
    proof {
        if a < b && chars@[a as int] == '+' {
            assert(t.drop_first() =~= d);
        } else {
            assert(t =~= d);
        }
    }
    if start >= b {
        return None;
    }
    let mut value: u128 = 0;
    let mut k = start;
    while k < b
        invariant
            start <= k <= b,
            b <= chars@.len(),
            d == chars@.subrange(start as int, b as int),
            parse_index_item(item) == parse_positive_digits(d),
            item == chars@.subrange(lo as int, hi as int),
            forall|j: int| 0 <= j < k - start ==> is_digit(#[trigger] d[j]),
            value == digits_value(d.take(k - start)),
            value <= i64::MAX,
        decreases b - k,
    {
        let c = chars[k];
        if c < '0' || c > '9' {
            proof {
                assert(!is_digit(d[k - start]));
            }
            return None;
        }
        proof {
            assert(d.take(k - start + 1).drop_last() =~= d.take(k - start));
            assert(d.take(k - start + 1).last() == c);
        }
        let digit: u128 = (c as u32 - '0' as u32) as u128;
        value = value * 10 + digit;
        if value > i64::MAX as u128 {
            proof {
                lemma_digits_value_prefix(d, k - start + 1);
            }
            return None;
        }
        k = k + 1;
    }
    proof {
        assert(d.take(b - start) =~= d);
    }
    if value == 0 || value > usize::MAX as u128 {
        return None;
    }
    Some(value as usize)
}

/// The subscripts between positions `lo` and `hi` of `chars`, each parsed.
fn parse_index_items_at(chars: &Vec<char>, lo: usize, hi: usize) -> (r: Option<Vec<usize>>)
    requires
        lo <= hi <= chars@.len(),
    ensures
        match r {
            Some(v) => parse_index_items(chars@.subrange(lo as int, hi as int)) == Some(v@),
            None => parse_index_items(chars@.subrange(lo as int, hi as int)) is None,
        },
    decreases hi - lo,
{
    let ghost s = chars@.subrange(lo as int, hi as int);
    let mut c = lo;
    while c < hi && chars[c] != ','
        invariant
            lo <= c <= hi,
            hi <= chars@.len(),
            forall|j: int| lo <= j < c ==> chars@[j] != ',',
        decreases hi - c,
    {
        c = c + 1;
    }
    proof {
        lemma_first_index_of_is(s, ',', c - lo);
    }
    let first = parse_index_item_at(chars, lo, c);
    proof {
        assert(s.take(c - lo) =~= chars@.subrange(lo as int, c as int));
    }
    if c == hi {
        proof {
            assert(s.take(c - lo) =~= s);
        }
        return match first {
            Some(v) => {
                let mut out: Vec<usize> = Vec::new();
                out.push(v);
                proof {
                    assert(out@ =~= seq![v]);
                }
                Some(out)
            },
            None => None,
        };
    }
    let v = match first {
        Some(v) => v,
        None => {
            return None;
        },
    };
    let rest = parse_index_items_at(chars, c + 1, hi);
    proof {
        assert(s.skip(c - lo + 1) =~= chars@.subrange(c + 1, hi as int));
    }
    match rest {
        Some(rest) => {
            let mut out: Vec<usize> = Vec::new();
            out.push(v);
            let mut k: usize = 0;
            while k < rest.len()
                invariant
                    k <= rest@.len(),
                    out@ == seq![v] + rest@.take(k as int),
                decreases rest@.len() - k,
            {
                out.push(rest[k]);
                proof {
                    assert(rest@.take(k + 1) =~= rest@.take(k as int).push(rest@[k as int]));
                }
                k = k + 1;
            }
            proof {
                assert(rest@.take(rest@.len() as int) =~= rest@);
            }
            Some(out)
        },
        None => None,
    }
}

/// Split a scalar element name `base[i1, ..., in]` into its base and
/// its positive one-based subscripts; `None` for any other text.
pub fn parse_indexed_binding_key(key: &str) -> (r: Option<(String, Vec<usize>)>)
    ensures
        match r {
            Some((base, indices)) => spec_parse_indexed_binding_key(key@) == Some((base@, indices@)),
            None => spec_parse_indexed_binding_key(key@) is None,
        },
{
    let chars = chars_of(key);
    let n = chars.len();
    if n == 0 || chars[n - 1] != ']' {
        return None;
    }
    let ghost body = key@.drop_last();
    let mut b = n - 1;
    while b > 0 && chars[b - 1] != '['
        invariant
            b <= n - 1,
            n == chars@.len(),
            chars@ == key@,
            forall|j: int| b <= j < n - 1 ==> chars@[j] != '[',
        decreases b,
    {
        b = b - 1;
    }
    if b == 0 {
        proof {
            lemma_last_index_of_is(body, '[', -1);
        }
        return None;
    }
    let open = b - 1;
    proof {
        lemma_last_index_of_is(body, '[', open as int);
    }
    if open == 0 {
        return None;
    }
    let indices = match parse_index_items_at(&chars, open + 1, n - 1) {
        Some(v) => v,
        None => {
            return None;
        },
    };
    let base = String::from_str(key.substring_char(0, open));
    proof {
        assert(key@.subrange(0, open as int) =~= key@.take(open as int));
    }
    Some((base, indices))
}

/// One field of a scalarized record: the layout suffix, the record
/// component it reads, the one-based subscripts within that component
/// (none for a scalar component), and the field's position.
pub struct ScalarizedRecordField {
    pub suffix: String,
    pub component: String,
    pub indices: Vec<usize>,
    pub field_index: usize,
}

/// A record field from its layout suffix: an indexed suffix such as
/// `re[2]` names component `re` at subscript 2; any other suffix names a
/// scalar component.
pub fn parse_scalarized_record_field(suffix: &str, field_index: usize) -> (field: ScalarizedRecordField)
    ensures
        field.suffix@ == suffix@,
        field.field_index == field_index,
        match spec_parse_indexed_binding_key(suffix@) {
            Some((component, indices)) => field.component@ == component && field.indices@ == indices,
            None => field.component@ == suffix@ && field.indices@.len() == 0,
        },
{
    let (component, indices) = match parse_indexed_binding_key(suffix) {
        Some(parsed) => parsed,
        None => (String::from_str(suffix), Vec::new()),
    };
    ScalarizedRecordField { suffix: String::from_str(suffix), component, indices, field_index }
}


proof fn lemma_digit_char(d: nat)
    requires
        d < 10,
    ensures
        is_digit(digit_char(d)),
        (digit_char(d) as nat) - ('0' as nat) == d,
{
    if d == 0 {
    } else if d == 1 {
    } else if d == 2 {
    } else if d == 3 {
    } else if d == 4 {
    } else if d == 5 {
    } else if d == 6 {
    } else if d == 7 {
    } else if d == 8 {
    } else {
    }
}

proof fn lemma_decimal_digits(n: nat)
    ensures
        decimal(n).len() > 0,
        forall|i: int| 0 <= i < decimal(n).len() ==> is_digit(#[trigger] decimal(n)[i]),
        digits_value(decimal(n)) == n,
    decreases n,
{
    if n < 10 {
        lemma_digit_char(n);
        assert(decimal(n) == seq![digit_char(n)]);
        assert(decimal(n).drop_last() =~= Seq::<char>::empty());
        assert(digits_value(decimal(n).drop_last()) == 0);
        assert(decimal(n).last() == digit_char(n));
        assert(digits_value(decimal(n)) == ((digit_char(n) as nat) - ('0' as nat)) as nat);
    } else {
        lemma_digit_char(n % 10);
        lemma_decimal_digits(n / 10);
        let prev = decimal(n / 10);
        assert(decimal(n) == prev.push(digit_char(n % 10)));
        assert(decimal(n).drop_last() =~= prev);
        assert(decimal(n).last() == digit_char(n % 10));
        vstd::arithmetic::div_mod::lemma_fundamental_div_mod(n as int, 10);
        assert(digits_value(decimal(n)) == digits_value(prev) * 10 + (n % 10));
        assert forall|i: int| 0 <= i < decimal(n).len() implies is_digit(#[trigger] decimal(n)[i]) by {
            if i < prev.len() {
                assert(decimal(n)[i] == prev[i]);
            }
        }
    }
}

proof fn lemma_join_first(parts: Seq<Seq<char>>, sep: Seq<char>)
    requires
        parts.len() >= 2,
    ensures
        join(parts, sep) == parts[0] + sep + join(parts.drop_first(), sep),
    decreases parts.len(),
{
    if parts.len() == 2 {
        assert(parts.drop_last() =~= seq![parts[0]]);
        assert(parts.drop_first() =~= seq![parts[1]]);
        assert(join(parts.drop_last(), sep) == parts[0]);
        assert(join(parts.drop_first(), sep) == parts[1]);
    } else {
        lemma_join_first(parts.drop_last(), sep);
        let d = parts.drop_first();
        assert(parts.drop_last().drop_first() =~= d.drop_last());
        assert(d.last() == parts.last());
        assert(parts.drop_last()[0] == parts[0]);
        assert(join(d, sep) == join(d.drop_last(), sep) + sep + d.last());
        let a = parts[0];
        let c = join(d.drop_last(), sep);
        let e = parts.last();
        assert((a + sep + c) + sep + e =~= a + sep + (c + sep + e));
    }
}

proof fn lemma_parse_decimal_item(v: usize)
    requires
        1 <= v <= i64::MAX,
    ensures
        parse_index_item(decimal(v as nat)) == Some(v),
{
    let d = decimal(v as nat);
    lemma_decimal_digits(v as nat);
    assert(d[0] != ' ' && d[0] != '+');
    assert(strip_leading_spaces(d) == d);
    assert(d.last() == d[d.len() - 1]);
    assert(strip_trailing_spaces(d) == d);
}

proof fn lemma_split_at_comma(first: Seq<char>, tail: Seq<char>)
    requires
        forall|j: int| 0 <= j < first.len() ==> first[j] != ',',
    ensures
        first_index_of(first + ","@ + tail, ',') == Some(first.len() as int),
        (first + ","@ + tail).take(first.len() as int) == first,
        (first + ","@ + tail).skip(first.len() as int + 1) == tail,
{
    reveal_strlit(",");
    let whole = first + ","@ + tail;
    assert forall|j: int| 0 <= j < first.len() implies whole[j] != ',' by {
        assert(whole[j] == first[j]);
    }
    assert(whole[first.len() as int] == ',');
    lemma_first_index_of_is(whole, ',', first.len() as int);
    assert(whole.take(first.len() as int) =~= first);
    assert(whole.skip(first.len() as int + 1) =~= tail);
}

proof fn lemma_parse_joined_items(indices: Seq<usize>)
    requires
        indices.len() > 0,
        forall|i: int| 0 <= i < indices.len() ==> 1 <= #[trigger] indices[i] <= i64::MAX,
    ensures
        parse_index_items(join(index_parts(usize_ints(indices)), ","@)) == Some(indices),
    decreases indices.len(),
{
    reveal_strlit(",");
    let parts = index_parts(usize_ints(indices));
    let v = indices[0];
    assert(parts[0] == decimal(v as nat));
    lemma_decimal_digits(v as nat);
    lemma_parse_decimal_item(v);
    let first = decimal(v as nat);
    if indices.len() == 1 {
        assert(join(parts, ","@) == first);
        lemma_first_index_of_is(first, ',', first.len() as int);
        assert(seq![v] =~= indices);
    } else {
        let rest = indices.drop_first();
        assert forall|i: int| 0 <= i < rest.len() implies 1 <= #[trigger] rest[i] <= i64::MAX by {
            assert(rest[i] == indices[i + 1]);
        }
        lemma_parse_joined_items(rest);
        assert(parts.drop_first() =~= index_parts(usize_ints(rest)));
        lemma_join_first(parts, ","@);
        let tail = join(index_parts(usize_ints(rest)), ","@);
        let whole = first + ","@ + tail;
        assert(join(parts, ","@) == whole);
        assert forall|j: int| 0 <= j < first.len() implies first[j] != ',' by {
            assert(is_digit(first[j]));
        }
        lemma_split_at_comma(first, tail);
        assert(seq![v] + rest =~= indices);
    }
}

proof fn lemma_joined_items_no_bracket(indices: Seq<usize>, j: int)
    requires
        0 <= j < join(index_parts(usize_ints(indices)), ","@).len(),
    ensures
        join(index_parts(usize_ints(indices)), ","@)[j] != '[',
    decreases indices.len(),
{
    reveal_strlit(",");
    let parts = index_parts(usize_ints(indices));
    if indices.len() == 1 {
        lemma_decimal_digits(indices[0] as nat);
        assert(parts[0] == decimal(indices[0] as nat));
    } else if indices.len() > 1 {
        let prev = indices.drop_last();
        assert(parts.drop_last() =~= index_parts(usize_ints(prev)));
        let l = indices.last();
        assert(parts.last() == decimal(l as nat));
        lemma_decimal_digits(l as nat);
        let a = join(index_parts(usize_ints(prev)), ","@);
        if j < a.len() {
            lemma_joined_items_no_bracket(prev, j);
            assert((a + ","@ + decimal(l as nat))[j] == a[j]);
        } else if j > a.len() {
            assert((a + ","@ + decimal(l as nat))[j] == decimal(l as nat)[j - a.len() - 1]);
        } else {
            assert((a + ","@ + decimal(l as nat))[j] == ',');
        }
    }
}

/// Subscript keys read back: the key of a non-empty base name with
/// subscripts in `1..=i64::MAX` parses into that base and those subscripts.
pub proof fn law_subscript_key_roundtrip(base: Seq<char>, indices: Seq<usize>)
    requires
        base.len() > 0,
        indices.len() > 0,
        forall|i: int| 0 <= i < indices.len() ==> 1 <= #[trigger] indices[i] <= i64::MAX,
    ensures
        spec_parse_indexed_binding_key(spec_subscript_key(base, usize_ints(indices))) == Some(
            (base, indices),
        ),
{
    reveal_strlit(",");
    reveal_strlit("[");
    reveal_strlit("]");
    let body = join(index_parts(usize_ints(indices)), ","@);
    let key = base + "["@ + body + "]"@;
    assert(spec_subscript_key(base, usize_ints(indices)) == key);
    let inner = key.drop_last();
    assert(inner =~= base + "["@ + body);
    assert(inner[base.len() as int] == '[');
    assert forall|j: int| base.len() < j < inner.len() implies inner[j] != '[' by {
        assert(inner[j] == body[j - base.len() - 1]);
        lemma_joined_items_no_bracket(indices, j - base.len() - 1);
    }
    lemma_last_index_of_is(inner, '[', base.len() as int);
    assert(key.subrange(base.len() as int + 1, key.len() - 1) =~= body);
    lemma_parse_joined_items(indices);
    assert(key.take(base.len() as int) =~= base);
}


/// The binding keys of the elements of a box in row-major order.
pub open spec fn spec_scalar_keys(base: Seq<char>, dims: Seq<int>) -> Seq<Seq<char>> {
    Seq::new(
        product(dims) as nat,
        |f: int| spec_subscript_key(base, row_major_indices(dims, f)),
    )
}

/// The texts of a list of strings.
pub open spec fn string_texts(strings: Seq<String>) -> Seq<Seq<char>> {
    strings.map_values(|s: String| s@)
}

/// The binding keys of every element of an array `base` of shape `dims`,
/// in row-major order.
pub fn scalar_keys_for_dims(base: &str, dims: &[usize], span: Span) -> (r: Result<
    Vec<String>,
    LowerError,
>)
    ensures
        match r {
            Ok(keys) => checked_product(usize_ints(dims@)) is Some && (forall|i: int|
                0 <= i < dims@.len() ==> dims@[i] <= i64::MAX) && string_texts(keys@)
                == spec_scalar_keys(base@, usize_ints(dims@)),
            Err(e) => spec_capacity_error(e, "scalarized binding dimension"@, span)
                || spec_capacity_error(e, "scalarized binding key count"@, span) || (exists|i: int|
                0 <= i < dims@.len() && dims@[i] > i64::MAX && (forall|j: int|
                    0 <= j < i ==> dims@[j] <= i64::MAX) && spec_contract_error(
                    e,
                    "scalarized binding dimension"@ + " "@ + decimal(dims@[i] as nat)
                        + " exceeds i64 range"@,
                    span,
                )) || ((forall|i: int| 0 <= i < dims@.len() ==> dims@[i] <= i64::MAX)
                && checked_product(usize_ints(dims@)) is None && spec_contract_error(
                e,
                "scalarized binding dimensions"@ + " scalar count overflows host index range"@,
                span,
            )),
        },
{
    let dims_i64 = checked_usize_dims_to_i64(dims, "scalarized binding dimension", span)?;
    let ghost dd = usize_ints(dims@);
    proof {
        assert(i64_ints(dims_i64@) =~= dd);
    }
    let size = checked_usize_scalar_count(dims, "scalarized binding dimensions", span)?;
    proof {
        lemma_checked_product_is_product(dd);
    }
    let mut keys: Vec<String> = vec_with_capacity(size, "scalarized binding key count", span)?;
    let mut flat: usize = 0;
    while flat < size
        invariant
            flat <= size,
            size == product(dd),
            checked_product(dd) == Some(size as int),
            dd == usize_ints(dims@),
            i64_ints(dims_i64@) == dd,
            dims_i64@.len() == dims@.len(),
            forall|i: int| 0 <= i < dims@.len() ==> dims@[i] <= i64::MAX,
            string_texts(keys@) == spec_scalar_keys(base@, dd).take(flat as int),
        decreases size - flat,
    {
        proof {
            assert forall|i: int| 0 <= i < dims_i64@.len() implies dims_i64@[i] >= 0 by {
                assert(i64_ints(dims_i64@)[i] == dd[i]);
            }
        }
        let subscripts = match projection_indices_for_dims(dims_i64.as_slice(), flat) {
            Some(v) => v,
            None => {
                proof {
                    assert(false);
                }
                return Ok(keys);
            },
        };
        proof {
            if dims_i64@.len() == 0 {
                assert(dd =~= Seq::<int>::empty());
                assert(row_major_indices(dd, flat as int) =~= usize_ints(subscripts@));
            }
        }
        let key = format_subscript_binding_key(base, subscripts.as_slice());
        let ghost before = keys@;
        keys.push(key);
        proof {
            assert(string_texts(keys@) =~= string_texts(before).push(key@));
            assert(spec_scalar_keys(base@, dd).take(flat + 1) =~= spec_scalar_keys(base@, dd).take(
                flat as int,
            ).push(spec_subscript_key(base@, row_major_indices(dd, flat as int))));
        }
        flat = flat + 1;
    }
    proof {
        assert(spec_scalar_keys(base@, dd).take(size as int) =~= spec_scalar_keys(base@, dd));
    }
    Ok(keys)
}

/// The index tuples a slice selects, depth-first: `prefix` extended by
/// each choice at `depth`, then by the choices of the deeper positions.
pub open spec fn slice_tuples(selections: Seq<Seq<usize>>, depth: int, prefix: Seq<usize>) -> Seq<
    Seq<usize>,
>
    decreases selections.len() - depth, selections[depth].len() + 1,
{
    if depth < 0 || depth >= selections.len() {
        seq![prefix]
    } else {
        slice_tuples_over(selections, depth, prefix, selections[depth].len() as int)
    }
}

/// The tuples that extend `prefix` by the first `k` choices at `depth`.
pub open spec fn slice_tuples_over(
    selections: Seq<Seq<usize>>,
    depth: int,
    prefix: Seq<usize>,
    k: int,
) -> Seq<Seq<usize>>
    decreases selections.len() - depth, k,
{
    if k <= 0 || depth < 0 || depth >= selections.len() {
        Seq::empty()
    } else {
        slice_tuples_over(selections, depth, prefix, k - 1) + slice_tuples(
            selections,
            depth + 1,
            prefix.push(selections[depth][k - 1]),
        )
    }
}

/// The binding keys of index tuples.
pub open spec fn tuple_keys(base: Seq<char>, tuples: Seq<Seq<usize>>) -> Seq<Seq<char>> {
    tuples.map_values(|t: Seq<usize>| spec_subscript_key(base, usize_ints(t)))
}

/// Append to `keys` the binding key of every element a slice selects,
/// position `depth` onward, each tuple starting with `current`.
pub fn collect_slice_keys(
    base: &str,
    selections: &[Vec<usize>],
    span: Span,
    depth: usize,
    current: &mut Vec<usize>,
    keys: &mut Vec<String>,
) -> (r: Result<(), LowerError>)
    requires
        depth <= selections@.len(),
    ensures
        match r {
            Ok(()) => final(current)@ == old(current)@ && string_texts(final(keys)@) == string_texts(old(keys)@) + tuple_keys(
                base@,
                slice_tuples(
                    selections@.map_values(|v: Vec<usize>| v@),
                    depth as int,
                    old(current)@,
                ),
            ),
            Err(e) => spec_capacity_error(e, "derivative slice key count"@, span)
                || spec_capacity_error(e, "derivative slice key depth"@, span),
        },
    decreases selections@.len() - depth,
{
    let ghost sel = selections@.map_values(|v: Vec<usize>| v@);
    if depth == selections.len() {
        reserve_capacity(keys, 1, "derivative slice key count", span)?;
        let key = format_subscript_binding_key(base, current.as_slice());
        let ghost before = keys@;
        keys.push(key);
        proof {
            assert(string_texts(keys@) =~= string_texts(before).push(key@));
            assert(tuple_keys(base@, seq![current@]) =~= seq![key@]);
        }
        return Ok(());
    }
    let ghost start = string_texts(keys@);
    let ghost prefix = current@;
    let choices = &selections[depth];
    let next = depth + 1;
    proof {
        assert(sel[depth as int] == choices@);
    }
    let mut i: usize = 0;
    while i < choices.len()
        invariant
            i <= choices@.len(),
            depth < selections@.len(),
            next == depth + 1,
            sel == selections@.map_values(|v: Vec<usize>| v@),
            sel[depth as int] == choices@,
            current@ == prefix,
            string_texts(keys@) == start + tuple_keys(
                base@,
                slice_tuples_over(sel, depth as int, prefix, i as int),
            ),
        decreases choices@.len() - i,
    {
        reserve_capacity(current, 1, "derivative slice key depth", span)?;
        current.push(choices[i]);
        let ghost mid = string_texts(keys@);
        collect_slice_keys(base, selections, span, next, current, keys)?;
        current.pop();
        proof {
            assert(current@ =~= prefix);
            let a = slice_tuples_over(sel, depth as int, prefix, i as int);
            let b = slice_tuples(sel, depth + 1, prefix.push(choices@[i as int]));
            assert(slice_tuples_over(sel, depth as int, prefix, i + 1) == a + b);
            assert(tuple_keys(base@, a + b) =~= tuple_keys(base@, a) + tuple_keys(base@, b));
        }
        i = i + 1;
    }
    proof {
        assert(slice_tuples(sel, depth as int, prefix) == slice_tuples_over(
            sel,
            depth as int,
            prefix,
            choices@.len() as int,
        ));
    }
    Ok(())
}

} // verus!
