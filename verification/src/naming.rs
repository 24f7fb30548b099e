//! Names of model elements: the names given to the cells of variable and
//! constraint arrays, how such a name is found again, and the names of the
//! files and directories a composed model's artifacts are written under.

use vstd::prelude::*;
use crate::text::{
    chars_of, decimal, digit_value, digits_value, parse_usize, parse_usize_spec, push_char,
    push_chars, push_decimal, push_decimal_padded, push_str, str_eq, unsigned_digits,
    decimal_padded,
};

verus! {

// ----- array spans -----

/// A block of consecutive ids given to the cells of one array, named
/// after its base name.
#[derive(Debug)]
pub struct ArraySpan {
    pub base_name: String,
    pub start_id: u32,
    pub len: usize,
}

/// The offset of `id` inside the span starting at `start` of `len` ids.
pub open spec fn span_offset(start: u32, len: usize, id: u32) -> Option<usize> {
    if id < start || id - start >= len {
        None
    } else {
        Some((id - start) as usize)
    }
}

/// The offset of `id` inside a span of ids, if it falls inside.
pub fn offset_of(start: u32, len: usize, id: u32) -> (offset: Option<usize>)
    ensures
        offset == span_offset(start, len, id),
{
    if id < start {
        return None;
    }
    let offset = (id - start) as usize;
    if offset < len {
        Some(offset)
    } else {
        None
    }
}

// ----- element names -----

/// The name of the cell at `offset` of an array named `base` with `len`
/// cells: the base name alone for a single cell, else `base[offset]`.
pub open spec fn element_name(base: Seq<char>, len: usize, offset: usize) -> Seq<char> {
    if len == 1 {
        base
    } else {
        base + "["@ + decimal(offset as nat) + "]"@
    }
}

/// Builds the name of the cell at `offset` of the array named `base`.
pub fn element_name_of(base: &str, len: usize, offset: usize) -> (name: String)
    ensures
        name@ == element_name(base@, len, offset),
{
    let mut name = String::new();
    push_str(&mut name, base);
    if len != 1 {
        push_str(&mut name, "[");
        push_decimal(&mut name, offset);
        push_str(&mut name, "]");
    }
    proof {
        if len == 1 {
            assert(name@ =~= base@);
        }
    }
    name
}

/// The position of the first span holding `id`.
pub open spec fn span_containing(spans: Seq<ArraySpan>, id: u32) -> Option<int>
    decreases spans.len(),
{
    if spans.len() == 0 {
        None
    } else if span_offset(spans.last().start_id, spans.last().len, id) is Some && span_containing(
        spans.drop_last(),
        id,
    ) is None {
        Some(spans.len() - 1)
    } else {
        span_containing(spans.drop_last(), id)
    }
}

/// The name of the array cell with id `id`, from the first span holding it.
pub fn element_name_for_id(spans: &[ArraySpan], id: u32) -> (name: Option<String>)
    ensures
        match span_containing(spans@, id) {
            Some(k) => name matches Some(n) && n@ == element_name(
                spans@[k].base_name@,
                spans@[k].len,
                span_offset(spans@[k].start_id, spans@[k].len, id)->0,
            ),
            None => name is None,
        },
{
    let mut i: usize = 0;
    while i < spans.len()
        invariant
            i <= spans@.len(),
            span_containing(spans@.take(i as int), id) is None,
        decreases spans@.len() - i,
    {
        proof {
            assert(spans@.take(i + 1).drop_last() =~= spans@.take(i as int));
        }
        let span = &spans[i];
        match offset_of(span.start_id, span.len, id) {
            Some(offset) => {
                proof {
                    lemma_span_containing_extends(spans@, id, i as int, spans@.len() as int);
                    assert(spans@.take(spans@.len() as int) =~= spans@);
                }
                return Some(element_name_of(span.base_name.as_str(), span.len, offset));
            },
            None => {},
        }
        i = i + 1;
    }
    proof {
        assert(spans@.take(i as int) =~= spans@);
    }
    None
}

proof fn lemma_span_containing_extends(spans: Seq<ArraySpan>, id: u32, k: int, j: int)
    requires
        0 <= k < j <= spans.len(),
        span_containing(spans.take(k), id) is None,
        span_offset(spans[k].start_id, spans[k].len, id) is Some,
    ensures
        span_containing(spans.take(j), id) == Some(k),
    decreases j - k,
{
    assert(spans.take(j).drop_last() =~= spans.take(j - 1));
    if j > k + 1 {
        lemma_span_containing_extends(spans, id, k, j - 1);
    }
}

/// The position of the last `[` in `s`.
pub open spec fn last_bracket(s: Seq<char>) -> Option<int>
    decreases s.len(),
{
    if s.len() == 0 {
        None
    } else if s.last() == '[' {
        Some(s.len() - 1)
    } else {
        last_bracket(s.drop_last())
    }
}

/// How a name reads as the name of an array cell.
#[derive(Debug, PartialEq, Eq)]
pub enum NameShape {
    /// `base[offset]`.
    Indexed { base: String, offset: usize },
    /// A name without `[`, which can name a single-cell array.
    Plain,
    /// A `[` not followed by a decimal number and a closing `]`.
    Malformed,
}

/// The reading of `name`: after its last `[` it must hold a decimal
/// number as `usize::from_str` reads it and end in `]`.
pub open spec fn name_shape_spec(name: Seq<char>) -> Option<(Seq<char>, usize)> {
    match last_bracket(name) {
        Some(pos) => {
            let rest = name.subrange(pos + 1, name.len() as int);
            if rest.len() > 0 && rest.last() == ']' {
                match parse_usize_spec(rest.drop_last()) {
                    Some(offset) => Some((name.subrange(0, pos), offset)),
                    None => None,
                }
            } else {
                None
            }
        },
        None => None,
    }
}

fn last_bracket_of(chars: &Vec<char>) -> (pos: Option<usize>)
    ensures
        match pos {
            Some(p) => last_bracket(chars@) == Some(p as int),
            None => last_bracket(chars@) is None,
        },
{
    let mut i: usize = chars.len();
    assert(chars@.take(chars@.len() as int) =~= chars@);
    while i > 0
        invariant
            i <= chars@.len(),
            last_bracket(chars@) == last_bracket(chars@.take(i as int)),
        decreases i,
    {
        proof {
            assert(chars@.take(i as int).drop_last() =~= chars@.take(i - 1));
        }
        if chars[i - 1] == '[' {
            return Some(i - 1);
        }
        i = i - 1;
    }
    proof {
        assert(chars@.take(0) =~= Seq::<char>::empty());
    }
    None
}

fn copy_range(chars: &Vec<char>, start: usize, end: usize) -> (part: Vec<char>)
    requires
        start <= end <= chars@.len(),
    ensures
        part@ == chars@.subrange(start as int, end as int),
{
    let mut part: Vec<char> = Vec::new();
    let mut i: usize = start;
    while i < end
        invariant
            start <= i <= end,
            end <= chars@.len(),
            part@ == chars@.subrange(start as int, i as int),
        decreases end - i,
    {
        part.push(chars[i]);
        i = i + 1;
    }
    part
}

/// Reads `name` as the name of an array cell.
pub fn name_shape(name: &str) -> (shape: NameShape)
    ensures
        match shape {
            NameShape::Indexed { base, offset } => name_shape_spec(name@) == Some((base@, offset)),
            NameShape::Plain => last_bracket(name@) is None,
            NameShape::Malformed => last_bracket(name@) is Some && name_shape_spec(name@) is None,
        },
{
    let chars = chars_of(name);
    match last_bracket_of(&chars) {
        None => NameShape::Plain,
        Some(pos) => {
            proof {
                lemma_last_bracket_bounds(chars@);
            }
            let n = chars.len();
            if n - pos < 2 || chars[n - 1] != ']' {
                return NameShape::Malformed;
            }
            let digits = copy_range(&chars, pos + 1, n - 1);
            proof {
                assert(digits@ =~= chars@.subrange(pos + 1, n as int).drop_last());
            }
            match parse_usize(digits.as_slice()) {
                Some(offset) => {
                    let base_chars = copy_range(&chars, 0, pos);
                    let mut base = String::new();
                    push_chars(&mut base, base_chars.as_slice());
                    NameShape::Indexed { base, offset }
                },
                None => NameShape::Malformed,
            }
        },
    }
}

/// The first span matching a read name: for `base[offset]` a span named
/// `base` with more than `offset` cells, for a plain name a single-cell
/// span of that name; the id of the cell it names.
pub open spec fn find_in_spans(spans: Seq<ArraySpan>, name: Seq<char>) -> Option<u32>
    decreases spans.len(),
{
    if spans.len() == 0 {
        None
    } else {
        let first = spans[0];
        let found = match name_shape_spec(name) {
            Some((base, offset)) => first.base_name@ == base && offset < first.len,
            None => last_bracket(name) is None && first.len == 1 && first.base_name@ == name,
        };
        if found {
            match name_shape_spec(name) {
                Some((_, offset)) => Some((first.start_id + offset) as u32),
                None => Some(first.start_id),
            }
        } else {
            find_in_spans(spans.drop_first(), name)
        }
    }
}

/// Every span's ids fit in `u32`.
pub open spec fn spans_fit(spans: Seq<ArraySpan>) -> bool {
    forall|i: int| 0 <= i < spans.len() ==> #[trigger] spans[i].start_id + spans[i].len <= u32::MAX + 1
}

/// The id of the array cell that `name` names, found by reading the name
/// as `base[offset]` (or as a plain single-cell name) and looking the base
/// up among the spans in order.
pub fn find_array_element(spans: &[ArraySpan], name: &str) -> (id: Option<u32>)
    requires
        spans_fit(spans@),
    ensures
        id == find_in_spans(spans@, name@),
{
    let shape = name_shape(name);
    let mut i: usize = 0;
    assert(spans@.skip(0) =~= spans@);
    while i < spans.len()
        invariant
            i <= spans@.len(),
            spans_fit(spans@),
            find_in_spans(spans@, name@) == find_in_spans(spans@.skip(i as int), name@),
            match shape {
                NameShape::Indexed { base, offset } => name_shape_spec(name@) == Some((base@, offset)),
                NameShape::Plain => last_bracket(name@) is None,
                NameShape::Malformed => last_bracket(name@) is Some && name_shape_spec(name@) is None,
            },
        decreases spans@.len() - i,
    {
        let span = &spans[i];
        proof {
            assert(spans@.skip(i as int)[0] == spans@[i as int]);
            assert(spans@.skip(i as int).drop_first() =~= spans@.skip(i + 1));
            assert(spans_fit(spans@) ==> spans@[i as int].start_id + spans@[i as int].len <= u32::MAX
                + 1);
        }
        match &shape {
            NameShape::Indexed { base, offset } => {
                if str_eq(span.base_name.as_str(), base.as_str()) && *offset < span.len {
                    return Some(span.start_id + *offset as u32);
                }
            },
            NameShape::Plain => {
                if span.len == 1 && str_eq(span.base_name.as_str(), name) {
                    return Some(span.start_id);
                }
            },
            NameShape::Malformed => {
                proof {
                    lemma_malformed_not_found(spans@.skip(i as int), name@);
                }
                return None;
            },
        }
        i = i + 1;
    }
    None
}

proof fn lemma_last_bracket_bounds(s: Seq<char>)
    ensures
        last_bracket(s) matches Some(p) ==> 0 <= p < s.len() && s[p] == '[',
    decreases s.len(),
{
    if s.len() > 0 {
        lemma_last_bracket_bounds(s.drop_last());
    }
}

proof fn lemma_malformed_not_found(spans: Seq<ArraySpan>, name: Seq<char>)
    requires
        last_bracket(name) is Some,
        name_shape_spec(name) is None,
    ensures
        find_in_spans(spans, name) is None,
    decreases spans.len(),
{
    if spans.len() > 0 {
        lemma_malformed_not_found(spans.drop_first(), name);
    }
}

proof fn lemma_digit_value_of_char(d: nat)
    requires
        d < 10,
    ensures
        digit_value(crate::text::digit_char(d)) == Some(d),
{
}

proof fn lemma_decimal_digits(n: nat)
    ensures
        decimal(n).len() > 0,
        forall|i: int| 0 <= i < decimal(n).len() ==> digit_value(#[trigger] decimal(n)[i]) is Some,
        forall|i: int| 0 <= i < decimal(n).len() ==> #[trigger] decimal(n)[i] != '[' && decimal(n)[i]
            != '+',
        digits_value(decimal(n)) == n,
    decreases n,
{
    lemma_digit_value_of_char(n % 10);
    if n < 10 {
        lemma_digit_value_of_char(n);
        assert(decimal(n).drop_last() =~= Seq::<char>::empty());
        assert(digits_value(decimal(n).drop_last()) == 0);
        assert(decimal(n).last() == crate::text::digit_char(n));
    } else {
        lemma_decimal_digits(n / 10);
        let d = decimal(n);
        assert(d.drop_last() =~= decimal(n / 10));
        assert forall|i: int| 0 <= i < d.len() implies digit_value(#[trigger] d[i]) is Some by {
            if i < d.len() - 1 {
                assert(d[i] == decimal(n / 10)[i]);
            }
        }
        assert forall|i: int| 0 <= i < d.len() implies #[trigger] d[i] != '[' && d[i] != '+' by {
            if i < d.len() - 1 {
                assert(d[i] == decimal(n / 10)[i]);
            }
        }
        assert(d.last() == crate::text::digit_char(n % 10));
        assert(digits_value(d) == digits_value(decimal(n / 10)) * 10 + n % 10);
        assert((n / 10) * 10 + n % 10 == n);
    }
}

/// A name built for an array cell is read back as that array's base name
/// and the cell's offset, whatever the base name holds.
pub proof fn lemma_element_name_roundtrip(base: Seq<char>, len: usize, offset: usize)
    requires
        len != 1,
    ensures
        name_shape_spec(element_name(base, len, offset)) == Some((base, offset)),
{
    reveal_strlit("[");
    reveal_strlit("]");
    lemma_decimal_digits(offset as nat);
    let digits = decimal(offset as nat);
    let name = element_name(base, len, offset);
    let with_bracket = base + "["@;
    assert(name == with_bracket + digits + "]"@);
    // the last `[` is the one before the digits
    assert(last_bracket(name) == Some(base.len() as int)) by {
        lemma_last_bracket_skips(name, base.len() as int);
    }
    let rest = name.subrange(base.len() + 1int, name.len() as int);
    assert(rest =~= digits + "]"@);
    assert(rest.drop_last() =~= digits);
    assert(unsigned_digits(digits) == digits);
    assert(name.subrange(0, base.len() as int) =~= base);
}

/// The name given to a cell of an array is found again as that cell's id,
/// when no earlier array has the same base name (and, for a single-cell
/// array, its base name holds no `[`).
pub proof fn lemma_find_element_roundtrip(spans: Seq<ArraySpan>, k: int, offset: usize)
    requires
        spans_fit(spans),
        0 <= k < spans.len(),
        offset < spans[k].len,
        spans[k].len == 1 ==> last_bracket(spans[k].base_name@) is None,
        forall|j: int| 0 <= j < k ==> (#[trigger] spans[j]).base_name@ != spans[k].base_name@,
    ensures
        find_in_spans(spans, element_name(spans[k].base_name@, spans[k].len, offset)) == Some(
            (spans[k].start_id + offset) as u32,
        ),
    decreases k,
{
    let base = spans[k].base_name@;
    let name = element_name(base, spans[k].len, offset);
    if spans[k].len != 1 {
        lemma_element_name_roundtrip(base, spans[k].len, offset);
    } else {
        assert(name == base);
        assert(last_bracket(name) is None);
        assert(name_shape_spec(name) is None);
    }
    if k > 0 {
        let rest = spans.drop_first();
        assert(rest[k - 1] == spans[k]);
        assert forall|j: int| 0 <= j < k - 1 implies (#[trigger] rest[j]).base_name@ != rest[k - 1].base_name@ by {
            assert(rest[j] == spans[j + 1]);
        }
        assert(spans_fit(rest)) by {
            assert forall|i: int| 0 <= i < rest.len() implies #[trigger] rest[i].start_id + rest[i].len
                <= u32::MAX + 1 by {
                assert(rest[i] == spans[i + 1]);
            }
        }
        lemma_find_element_roundtrip(rest, k - 1, offset);
        assert(spans[0].base_name@ != base);
    }
}

proof fn lemma_last_bracket_skips(s: Seq<char>, pos: int)
    requires
        0 <= pos < s.len(),
        s[pos] == '[',
        forall|i: int| pos < i < s.len() ==> s[i] != '[',
    ensures
        last_bracket(s) == Some(pos),
    decreases s.len(),
{
    if s.len() - 1 > pos {
        lemma_last_bracket_skips(s.drop_last(), pos);
    }
}

// ----- constraint blocks -----

/// The name of constraint `index` of a block of `count` constraints named
/// `base`: the base name alone for a single constraint, else
/// `base[index]`.
pub fn constraint_block_name(base: &str, count: usize, index: usize) -> (name: String)
    ensures
        name@ == element_name(base@, count, index),
{
    element_name_of(base, count, index)
}

// ----- axis symbols -----

pub open spec fn is_ascii_alphabetic(c: char) -> bool {
    ('a' <= c <= 'z') || ('A' <= c <= 'Z')
}

pub open spec fn is_ascii_alphanumeric(c: char) -> bool {
    is_ascii_alphabetic(c) || ('0' <= c <= '9')
}

pub open spec fn ascii_lowercase(c: char) -> char {
    if 'A' <= c <= 'Z' {
        ((c as u8) + 32) as char
    } else {
        c
    }
}

/// The position of the first ASCII letter in `s`.
pub open spec fn first_letter(s: Seq<char>) -> Option<int>
    decreases s.len(),
{
    if s.len() == 0 {
        None
    } else {
        match first_letter(s.drop_last()) {
            Some(i) => Some(i),
            None => if is_ascii_alphabetic(s.last()) {
                Some(s.len() - 1)
            } else {
                None
            },
        }
    }
}

/// The symbol that stands for axis `axis` of an index set named `name`:
/// the first ASCII letter of the name in lowercase, else `i` followed by
/// the axis number counted from one.
pub open spec fn axis_symbol_spec(name: Seq<char>, axis: usize) -> Seq<char> {
    match first_letter(name) {
        Some(i) => seq![ascii_lowercase(name[i])],
        None => seq!['i'] + decimal((axis + 1) as nat),
    }
}

/// The symbol standing for an axis whose index set is named `name`.
pub fn axis_symbol_from_name(name: &str, axis: usize) -> (symbol: String)
    requires
        axis < usize::MAX,
    ensures
        symbol@ == axis_symbol_spec(name@, axis),
{
    let chars = chars_of(name);
    let mut i: usize = 0;
    while i < chars.len()
        invariant
            i <= chars@.len(),
            chars@ == name@,
            first_letter(chars@.take(i as int)) is None,
        decreases chars@.len() - i,
    {
        let c = chars[i];
        proof {
            assert(chars@.take(i + 1).drop_last() =~= chars@.take(i as int));
        }
        if ('a' <= c && c <= 'z') || ('A' <= c && c <= 'Z') {
            proof {
                lemma_first_letter_prefix(chars@, i as int);
            }
            let lower = if 'A' <= c && c <= 'Z' {
                ((c as u8) + 32) as char
            } else {
                c
            };
            assert(lower == ascii_lowercase(c));
            let mut symbol = String::new();
            push_char(&mut symbol, lower);
            assert(chars@[i as int] == c);
            assert(symbol@ =~= seq![lower]);
            return symbol;
        }
        i = i + 1;
    }
    proof {
        assert(chars@.take(i as int) =~= chars@);
    }
    let mut symbol = String::new();
    push_char(&mut symbol, 'i');
    push_decimal(&mut symbol, axis + 1);
    symbol
}

proof fn lemma_first_letter_prefix(s: Seq<char>, i: int)
    requires
        0 <= i < s.len(),
        first_letter(s.take(i)) is None,
        is_ascii_alphabetic(s[i]),
    ensures
        first_letter(s) == Some(i),
{
    lemma_first_letter_extends(s, i + 1, i);
    assert(s.take(i + 1).drop_last() =~= s.take(i));
    assert(s.take(s.len() as int) =~= s);
}

proof fn lemma_first_letter_extends(s: Seq<char>, k: int, i: int)
    requires
        0 <= i < k <= s.len(),
        s.take(k).drop_last() == s.take(k - 1),
        first_letter(s.take(k - 1)) is None || first_letter(s.take(k - 1)) == Some(i),
        first_letter(s.take(k - 1)) is None ==> (k - 1 == i && is_ascii_alphabetic(s[i])),
    ensures
        forall|j: int| k <= j <= s.len() ==> first_letter(#[trigger] s.take(j)) == Some(i),
    decreases s.len() - k,
{
    assert(first_letter(s.take(k)) == Some(i));
    if k < s.len() {
        assert(s.take(k + 1).drop_last() =~= s.take(k));
        lemma_first_letter_extends(s, k + 1, i);
    }
}

// ----- artifact paths -----

/// A name made safe as part of a path: ASCII letters, digits, `-` and `_`
/// kept, every other character replaced by `_`; `block` for an empty name.
pub open spec fn sanitized_chars(name: Seq<char>) -> Seq<char> {
    name.map_values(|c: char| if is_ascii_alphanumeric(c) || c == '-' || c == '_' {
        c
    } else {
        '_'
    })
}

pub open spec fn sanitize_spec(name: Seq<char>) -> Seq<char> {
    if name.len() == 0 {
        "block"@
    } else {
        sanitized_chars(name)
    }
}

/// A sanitized name keeps every character of the name that is an ASCII
/// letter (either case), an ASCII digit, `-` or `_`, in place, and puts `_`
/// in place of every other character; an empty name becomes `block`.
pub proof fn lemma_sanitize_keeps_safe_characters(name: Seq<char>)
    ensures
        name.len() == 0 ==> sanitize_spec(name) == "block"@,
        name.len() > 0 ==> sanitize_spec(name).len() == name.len(),
        name.len() > 0 ==> forall|i: int|
            0 <= i < name.len() ==> #[trigger] sanitize_spec(name)[i] == (if ('a' <= name[i] <= 'z')
                || ('A' <= name[i] <= 'Z') || ('0' <= name[i] <= '9') || name[i] == '-' || name[i]
                == '_' {
                name[i]
            } else {
                '_'
            }),
{
}

/// Makes a block name safe to use as part of a path.
pub fn sanitize_artifact_path_part(name: &str) -> (part: String)
    ensures
        part@ == sanitize_spec(name@),
{
    let chars = chars_of(name);
    if chars.len() == 0 {
        return "block".to_owned();
    }
    let mut part = String::new();
    let mut i: usize = 0;
    while i < chars.len()
        invariant
            i <= chars@.len(),
            part@ == sanitized_chars(chars@.take(i as int)),
        decreases chars@.len() - i,
    {
        let c = chars[i];
        let kept = ('a' <= c && c <= 'z') || ('A' <= c && c <= 'Z') || ('0' <= c && c <= '9') || c
            == '-' || c == '_';
        push_char(
            &mut part,
            if kept {
                c
            } else {
                '_'
            },
        );
        i = i + 1;
        proof {
            assert(part@ =~= sanitized_chars(chars@.take(i as int)));
        }
    }
    proof {
        assert(chars@.take(i as int) =~= chars@);
    }
    part
}

/// The directory a block's artifacts are written to: its position in three
/// digits at least, a `-`, and its sanitized name.
pub open spec fn block_directory_spec(order: usize, name: Seq<char>) -> Seq<char> {
    decimal_padded(order as nat, 3) + "-"@ + sanitize_spec(name)
}

/// Names the directory of the block at position `order`.
pub fn block_directory_name(order: usize, name: &str) -> (dir: String)
    ensures
        dir@ == block_directory_spec(order, name@),
{
    let mut dir = String::new();
    push_decimal_padded(&mut dir, order, 3);
    push_str(&mut dir, "-");
    let part = sanitize_artifact_path_part(name);
    push_str(&mut dir, part.as_str());
    dir
}

/// The kinds of artifact kept for each block, in the order they are
/// written.
pub fn retained_artifacts(keep_diagnostics: bool, keep_model: bool, keep_solution: bool) -> (kinds:
    Vec<&'static str>)
    ensures
        kinds@.map_values(|k: &'static str| k@) == (if keep_diagnostics {
            seq!["stage_diagnostics"@]
        } else {
            Seq::empty()
        }) + (if keep_model {
            seq!["model_snapshot"@]
        } else {
            Seq::empty()
        }) + (if keep_solution {
            seq!["solution_summary"@]
        } else {
            Seq::empty()
        }),
{
    let mut kinds: Vec<&'static str> = Vec::new();
    if keep_diagnostics {
        kinds.push("stage_diagnostics");
    }
    if keep_model {
        kinds.push("model_snapshot");
    }
    if keep_solution {
        kinds.push("solution_summary");
    }
    proof {
        assert(kinds@.map_values(|k: &'static str| k@) =~= (if keep_diagnostics {
            seq!["stage_diagnostics"@]
        } else {
            Seq::empty()
        }) + (if keep_model {
            seq!["model_snapshot"@]
        } else {
            Seq::empty()
        }) + (if keep_solution {
            seq!["solution_summary"@]
        } else {
            Seq::empty()
        }));
    }
    kinds
}

/// The path of an artifact file relative to the artifact directory:
/// `<block directory>/<kind>.json`.
pub fn artifact_relative_path(block_dir: &str, kind: &str) -> (path: String)
    ensures
        path@ == block_dir@ + "/"@ + kind@ + ".json"@,
{
    let mut path = String::new();
    push_str(&mut path, block_dir);
    push_str(&mut path, "/");
    push_str(&mut path, kind);
    push_str(&mut path, ".json");
    path
}

// ----- backends and result indices -----

/// The backend family a model-view solve runs on: the builtin
/// `arco-rust-*` names stand for their families.
pub open spec fn backend_family_spec(family: Seq<char>) -> Seq<char> {
    if family == "arco-rust-highs"@ {
        "highs"@
    } else if family == "arco-rust-xpress"@ {
        "xpress"@
    } else if family == "arco-rust-scip"@ {
        "scip"@
    } else {
        family
    }
}

/// Maps a builtin backend name to its family.
pub fn normalize_model_view_backend_family(family: &str) -> (normalized: &str)
    ensures
        normalized@ == backend_family_spec(family@),
{
    if str_eq(family, "arco-rust-highs") {
        "highs"
    } else if str_eq(family, "arco-rust-xpress") {
        "xpress"
    } else if str_eq(family, "arco-rust-scip") {
        "scip"
    } else {
        family
    }
}

/// An index into a raw result vector, refused when negative.
pub fn raw_result_index(index: isize) -> (position: Result<usize, isize>)
    ensures
        match position {
            Ok(p) => index >= 0 && p == index,
            Err(i) => index < 0 && i == index,
        },
{
    if index < 0 {
        Err(index)
    } else {
        Ok(index as usize)
    }
}


// ----- labels of array cells -----

/// Whether `name` is the name the cell at `offset` of an array would be
/// given anyway: for a single-cell array its base name or `base[0]`, else
/// `base[d]` with `d` the cell's dense offset (its active offset when the
/// mapping has none).
pub open spec fn autogenerated_name(
    base: Seq<char>,
    len: usize,
    dense: usize,
    name: Seq<char>,
) -> bool {
    if len == 1 {
        name == base || name == base + "[0]"@
    } else {
        name == base + "["@ + decimal(dense as nat) + "]"@
    }
}

/// Whether `name` is the generated name of the array cell with id `id`.
pub fn is_autogenerated_array_name(
    base: &str,
    start_id: u32,
    len: usize,
    mapping: &crate::dense_mapping::DenseIndexMapping,
    id: u32,
    name: &str,
) -> (generated: bool)
    ensures
        generated == match span_offset(start_id, len, id) {
            None => false,
            Some(offset) => autogenerated_name(
                base@,
                len,
                match mapping.dense_spec(offset, len) {
                    Some(d) => d,
                    None => offset,
                },
                name@,
            ),
        },
{
    let offset = match offset_of(start_id, len, id) {
        Some(offset) => offset,
        None => {
            return false;
        },
    };
    if len == 1 {
        let mut indexed = String::new();
        push_str(&mut indexed, base);
        push_str(&mut indexed, "[0]");
        return str_eq(name, base) || str_eq(name, indexed.as_str());
    }
    let dense = match mapping.dense_offset(offset, len) {
        Some(d) => d,
        None => offset,
    };
    let expected = element_name_of(base, len, dense);
    str_eq(name, expected.as_str())
}

/// The strides used to read the coordinates of a cell: each axis steps
/// over the cells of the axes after it, and never by less than one.
pub fn print_strides(shape: &[usize]) -> (strides: Vec<usize>)
    requires
        crate::indexing::spans_fit(shape@),
    ensures
        strides@.len() == shape@.len(),
        forall|a: int|
            0 <= a < shape@.len() ==> #[trigger] strides@[a] == if crate::indexing::span(shape@, a + 1)
                == 0 {
                1
            } else {
                crate::indexing::span(shape@, a + 1)
            },
{
    let row_major = crate::indexing::row_major_strides(shape);
    let mut strides: Vec<usize> = Vec::new();
    let mut a: usize = 0;
    while a < row_major.len()
        invariant
            a <= row_major@.len(),
            row_major@.len() == shape@.len(),
            forall|j: int|
                0 <= j < shape@.len() ==> #[trigger] row_major@[j] == crate::indexing::span(shape@, j + 1),
            strides@.len() == a,
            forall|j: int|
                0 <= j < a ==> #[trigger] strides@[j] == if crate::indexing::span(shape@, j + 1) == 0 {
                    1
                } else {
                    crate::indexing::span(shape@, j + 1)
                },
        decreases row_major@.len() - a,
    {
        let stride = row_major[a];
        strides.push(
            if stride == 0 {
                1
            } else {
                stride
            },
        );
        a = a + 1;
    }
    strides
}

/// The coordinates of the cell at dense offset `dense` along each axis,
/// or `None` when an axis is empty.
pub fn cell_coordinates(dense: usize, shape: &[usize], strides: &[usize]) -> (coords: Option<
    Vec<usize>,
>)
    requires
        strides@.len() == shape@.len(),
        forall|a: int| 0 <= a < strides@.len() ==> #[trigger] strides@[a] > 0,
    ensures
        match coords {
            Some(c) => {
                &&& forall|a: int| 0 <= a < shape@.len() ==> #[trigger] shape@[a] > 0
                &&& c@.len() == shape@.len()
                &&& forall|a: int|
                    0 <= a < shape@.len() ==> #[trigger] c@[a] == (dense / strides@[a]) % shape@[a]
            },
            None => exists|a: int| 0 <= a < shape@.len() && #[trigger] shape@[a] == 0,
        },
{
    let mut coords: Vec<usize> = Vec::new();
    let mut a: usize = 0;
    while a < shape.len()
        invariant
            a <= shape@.len(),
            strides@.len() == shape@.len(),
            forall|j: int| 0 <= j < strides@.len() ==> #[trigger] strides@[j] > 0,
            coords@.len() == a,
            forall|j: int| 0 <= j < a ==> #[trigger] shape@[j] > 0,
            forall|j: int| 0 <= j < a ==> #[trigger] coords@[j] == (dense / strides@[j]) % shape@[j],
        decreases shape@.len() - a,
    {
        let size = shape[a];
        if size == 0 {
            return None;
        }
        coords.push((dense / strides[a]) % size);
        a = a + 1;
    }
    Some(coords)
}

/// The name of a cell is the array's name alone when the array has one
/// cell; otherwise the array's name, `[`, the decimal digits of the cell's
/// offset and `]`.
pub proof fn lemma_element_name_layout(base: Seq<char>, len: usize, offset: usize)
    ensures
        len == 1 ==> element_name(base, len, offset) == base,
        len != 1 ==> ({
            let name = element_name(base, len, offset);
            let digits = name.subrange(base.len() as int + 1, name.len() - 1);
            &&& name.len() > base.len() + 2
            &&& name.subrange(0, base.len() as int) == base
            &&& name[base.len() as int] == '['
            &&& name[name.len() - 1] == ']'
            &&& forall|i: int| 0 <= i < digits.len() ==> '0' <= #[trigger] digits[i] <= '9'
            &&& digits_value(digits) == offset
        }),
{
    crate::text::lemma_decimal_reads_back(offset as nat);
    if len != 1 {
        reveal_strlit("[");
        reveal_strlit("]");
        let name = element_name(base, len, offset);
        assert(name.subrange(0, base.len() as int) =~= base);
        assert(name.subrange(base.len() as int + 1, name.len() - 1) =~= decimal(offset as nat));
    }
}

/// A block's directory is its position in decimal digits, zero-padded to
/// at least three, then `-`, then its sanitized name.
pub proof fn lemma_block_directory_layout(order: usize, name: Seq<char>)
    ensures
        ({
            let dir = block_directory_spec(order, name);
            let p = decimal_padded(order as nat, 3).len();
            &&& p >= 3
            &&& forall|i: int| 0 <= i < p ==> '0' <= #[trigger] dir[i] <= '9'
            &&& digits_value(dir.subrange(0, p as int)) == order
            &&& dir[p as int] == '-'
            &&& dir.subrange(p as int + 1, dir.len() as int) == sanitize_spec(name)
        }),
{
    crate::text::lemma_decimal_padded_reads_back(order as nat, 3);
    reveal_strlit("-");
    let dir = block_directory_spec(order, name);
    let padded = decimal_padded(order as nat, 3);
    assert(dir.subrange(0, padded.len() as int) =~= padded);
    assert(dir.subrange(padded.len() as int + 1, dir.len() as int) =~= sanitize_spec(name));
    assert forall|i: int| 0 <= i < padded.len() implies '0' <= #[trigger] dir[i] <= '9' by {
        assert(dir[i] == padded[i]);
    }
}

/// The symbol of an axis is the first ASCII letter of its index set's name,
/// lowercased; a name without one gives `i` and the axis number counted
/// from one.
pub proof fn lemma_axis_symbol_choice(name: Seq<char>, axis: usize)
    ensures
        forall|i: int|
            0 <= i < name.len() && (('a' <= name[i] <= 'z') || ('A' <= name[i] <= 'Z')) && (forall|
                j: int,
            |
                0 <= j < i ==> !(('a' <= #[trigger] name[j] <= 'z') || ('A' <= name[j] <= 'Z')))
                ==> #[trigger] axis_symbol_spec(name, axis) == seq![
                if 'A' <= name[i] <= 'Z' {
                    ((name[i] as u8) + 32) as char
                } else {
                    name[i]
                },
            ],
        (forall|j: int| 0 <= j < name.len() ==> !(('a' <= #[trigger] name[j] <= 'z') || ('A'
            <= name[j] <= 'Z'))) ==> ({
            let symbol = axis_symbol_spec(name, axis);
            &&& symbol[0] == 'i'
            &&& symbol.len() > 1
            &&& digits_value(symbol.drop_first()) == axis + 1
        }),
{
    crate::text::lemma_decimal_reads_back((axis + 1) as nat);
    lemma_first_letter_is_first(name);
    if forall|j: int| 0 <= j < name.len() ==> !(('a' <= #[trigger] name[j] <= 'z') || ('A'
        <= name[j] <= 'Z')) {
        assert(first_letter(name) is None);
        assert(axis_symbol_spec(name, axis).drop_first() =~= decimal((axis + 1) as nat));
    }
}

proof fn lemma_first_letter_is_first(name: Seq<char>)
    ensures
        match first_letter(name) {
            Some(i) => 0 <= i < name.len() && is_ascii_alphabetic(name[i]) && forall|j: int|
                0 <= j < i ==> !is_ascii_alphabetic(#[trigger] name[j]),
            None => forall|j: int| 0 <= j < name.len() ==> !is_ascii_alphabetic(#[trigger] name[j]),
        },
    decreases name.len(),
{
    if name.len() > 0 {
        let prev = name.drop_last();
        lemma_first_letter_is_first(prev);
        assert forall|j: int| 0 <= j < prev.len() implies prev[j] == name[j] by {}
    }
}

/// The builtin backend names stand for their families (`arco-rust-highs`
/// for `highs`, `arco-rust-xpress` for `xpress`, `arco-rust-scip` for
/// `scip`); any other family is kept as given.
pub proof fn lemma_backend_families(family: Seq<char>)
    ensures
        family == "arco-rust-highs"@ ==> backend_family_spec(family) == "highs"@,
        family == "arco-rust-xpress"@ ==> backend_family_spec(family) == "xpress"@,
        family == "arco-rust-scip"@ ==> backend_family_spec(family) == "scip"@,
        family != "arco-rust-highs"@ && family != "arco-rust-xpress"@ && family
            != "arco-rust-scip"@ ==> backend_family_spec(family) == family,
{
    reveal_strlit("arco-rust-highs");
    reveal_strlit("arco-rust-xpress");
    reveal_strlit("arco-rust-scip");
    assert("arco-rust-highs"@[10] == 'h' && "arco-rust-xpress"@[10] == 'x'
        && "arco-rust-scip"@[10] == 's');
}

} // verus!
