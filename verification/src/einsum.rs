//! Einstein-summation subscripts over arrays of expressions: reading the
//! subscript string, the size of each label, and the labels of the
//! coefficient tensor that multiplies the expression operand.

use vstd::prelude::*;
use crate::text::chars_of;
use crate::naming::is_ascii_alphabetic;

verus! {

/// Why an einsum request was refused.
#[derive(Debug, Clone, Copy, PartialEq, Eq, Structural)]
pub enum EinsumError {
    /// The subscripts hold `...`.
    Ellipsis,
    /// The subscripts hold no `->`.
    MissingOutput,
    /// The subscripts name another number of operands than were given.
    OperandCount { expected: usize, received: usize },
    /// A label that is not an ASCII letter.
    NonAlphabetic,
    /// A label repeated within one term.
    RepeatedLabel,
    /// An operand whose rank differs from its term.
    RankMismatch { operand_rank: usize, subscript_rank: usize },
    /// A label given two different sizes.
    IncompatibleLabel { label: char, existing: usize, size: usize },
    /// An output label that no input term holds.
    UnknownOutputLabel(char),
}

// ----- reading subscripts -----

/// Whether `s` holds `...` at position `i`.
pub open spec fn dots_at(s: Seq<char>, i: int) -> bool {
    0 <= i && i + 3 <= s.len() && s[i] == '.' && s[i + 1] == '.' && s[i + 2] == '.'
}

/// Whether `s` holds `...`.
pub open spec fn has_ellipsis(s: Seq<char>) -> bool {
    exists|i: int| #[trigger] dots_at(s, i)
}

/// The position of the first `->` in `s` among the first `k` characters.
pub open spec fn first_arrow_before(s: Seq<char>, k: int) -> Option<int>
    decreases k,
{
    if k <= 0 {
        None
    } else {
        match first_arrow_before(s, k - 1) {
            Some(i) => Some(i),
            None => if k < s.len() && s[k - 1] == '-' && s[k] == '>' {
                Some(k - 1)
            } else {
                None
            },
        }
    }
}

pub open spec fn first_arrow(s: Seq<char>) -> Option<int> {
    first_arrow_before(s, s.len() as int)
}

/// The pieces of `s` between commas, in order (one empty piece for an
/// empty `s`).
pub open spec fn split_commas(s: Seq<char>) -> Seq<Seq<char>>
    decreases s.len(),
{
    if s.len() == 0 {
        seq![Seq::empty()]
    } else {
        let pieces = split_commas(s.drop_last());
        if s.last() == ',' {
            pieces.push(Seq::empty())
        } else {
            pieces.update(pieces.len() - 1, pieces.last().push(s.last()))
        }
    }
}

/// The first thing wrong with the labels of one term, scanning them in
/// order: a label that is not an ASCII letter, or one seen before.
pub open spec fn term_error(term: Seq<char>) -> Option<EinsumError>
    decreases term.len(),
{
    if term.len() == 0 {
        None
    } else {
        match term_error(term.drop_last()) {
            Some(e) => Some(e),
            None => if !is_ascii_alphabetic(term.last()) {
                Some(EinsumError::NonAlphabetic)
            } else if term.drop_last().contains(term.last()) {
                Some(EinsumError::RepeatedLabel)
            } else {
                None
            },
        }
    }
}

/// The first error among `terms`, in order.
pub open spec fn terms_error(terms: Seq<Seq<char>>) -> Option<EinsumError>
    decreases terms.len(),
{
    if terms.len() == 0 {
        None
    } else {
        match terms_error(terms.drop_last()) {
            Some(e) => Some(e),
            None => term_error(terms.last()),
        }
    }
}

/// What reading the subscripts gives for `operand_count` operands: the
/// input terms and the output term, or the first error in the order
/// ellipsis, missing `->`, operand count, labels of the input terms and
/// then of the output term.
pub open spec fn parse_spec(s: Seq<char>, operand_count: usize) -> Result<
    (Seq<Seq<char>>, Seq<char>),
    EinsumError,
> {
    if has_ellipsis(s) {
        Err(EinsumError::Ellipsis)
    } else {
        match first_arrow(s) {
            None => Err(EinsumError::MissingOutput),
            Some(p) => {
                let inputs = split_commas(s.subrange(0, p));
                let output = s.subrange(p + 2, s.len() as int);
                if inputs.len() != operand_count {
                    Err(
                        EinsumError::OperandCount {
                            expected: inputs.len() as usize,
                            received: operand_count,
                        },
                    )
                } else {
                    match terms_error(inputs.push(output)) {
                        Some(e) => Err(e),
                        None => Ok((inputs, output)),
                    }
                }
            },
        }
    }
}

/// Pieces joined with commas between them.
pub open spec fn join_commas(pieces: Seq<Seq<char>>) -> Seq<char>
    decreases pieces.len(),
{
    if pieces.len() == 0 {
        Seq::empty()
    } else if pieces.len() == 1 {
        pieces[0]
    } else {
        join_commas(pieces.drop_last()).push(',') + pieces.last()
    }
}

proof fn lemma_split_commas_joins_back(t: Seq<char>)
    ensures
        split_commas(t).len() >= 1,
        join_commas(split_commas(t)) == t,
        forall|k: int, i: int|
            0 <= k < split_commas(t).len() && 0 <= i < split_commas(t)[k].len() ==> #[trigger] split_commas(
                t,
            )[k][i] != ',',
    decreases t.len(),
{
    if t.len() > 0 {
        let prev = t.drop_last();
        lemma_split_commas_joins_back(prev);
        let pieces = split_commas(prev);
        let c = t.last();
        if c == ',' {
            let now = pieces.push(Seq::empty());
            assert(now.drop_last() =~= pieces);
            assert(join_commas(now) =~= t);
            assert forall|k: int, i: int|
                0 <= k < now.len() && 0 <= i < now[k].len() implies #[trigger] now[k][i] != ',' by {
                assert(now[k] == pieces[k]);
            }
        } else {
            let n = pieces.len();
            let now = pieces.update(n - 1, pieces.last().push(c));
            if n == 1 {
                assert(join_commas(now) =~= t);
            } else {
                assert(now.drop_last() =~= pieces.drop_last());
                assert(join_commas(pieces) == join_commas(pieces.drop_last()).push(',')
                    + pieces.last());
                assert(now.last() == pieces.last().push(c));
                assert(t =~= prev.push(c));
                assert(join_commas(now) == join_commas(pieces.drop_last()).push(',') + now.last());
                assert(join_commas(now) =~= t);
            }
            assert forall|k: int, i: int|
                0 <= k < now.len() && 0 <= i < now[k].len() implies #[trigger] now[k][i] != ',' by {
                if k < n - 1 {
                    assert(now[k] == pieces[k]);
                } else if i < pieces.last().len() {
                    assert(now[k][i] == pieces[n - 1][i]);
                }
            }
        }
    }
}

proof fn lemma_term_error_none(term: Seq<char>)
    requires
        term_error(term) is None,
    ensures
        forall|i: int|
            0 <= i < term.len() ==> ('a' <= #[trigger] term[i] <= 'z') || ('A' <= term[i] <= 'Z'),
        forall|i: int, j: int| 0 <= i < j < term.len() ==> term[i] != term[j],
    decreases term.len(),
{
    if term.len() > 0 {
        let prev = term.drop_last();
        lemma_term_error_none(prev);
        assert forall|i: int| 0 <= i < prev.len() implies prev[i] == term[i] by {}
        assert forall|i: int, j: int| 0 <= i < j < term.len() implies term[i] != term[j] by {
            if j == term.len() - 1 {
                assert(prev[i] == term[i]);
                assert(!prev.contains(term.last()));
            }
        }
    }
}

proof fn lemma_terms_error_none(terms: Seq<Seq<char>>, k: int)
    requires
        terms_error(terms) is None,
        0 <= k < terms.len(),
    ensures
        term_error(terms[k]) is None,
    decreases terms.len(),
{
    if k < terms.len() - 1 {
        lemma_terms_error_none(terms.drop_last(), k);
        assert(terms.drop_last()[k] == terms[k]);
    }
}

/// Subscripts with `...` are refused as such; without, subscripts with no
/// `->` are refused for the missing output. Subscripts that are read give
/// as many input terms as there are operands, the subscripts are those
/// terms joined by commas, then `->`, then the output term, and every term
/// is made of distinct ASCII letters.
pub proof fn lemma_einsum_subscripts_read(s: Seq<char>, operand_count: usize)
    ensures
        (exists|i: int| 0 <= i && i + 3 <= s.len() && s[i] == '.' && s[i + 1] == '.' && #[trigger] s[i + 2] == '.')
            ==> parse_spec(s, operand_count) == Err::<(Seq<Seq<char>>, Seq<char>), EinsumError>(
            EinsumError::Ellipsis,
        ),
        !(exists|i: int| 0 <= i && i + 3 <= s.len() && s[i] == '.' && s[i + 1] == '.' && #[trigger] s[i + 2] == '.')
            && !(exists|i: int| 0 <= i && i + 1 < s.len() && s[i] == '-' && #[trigger] s[i + 1] == '>')
            ==> parse_spec(s, operand_count) == Err::<(Seq<Seq<char>>, Seq<char>), EinsumError>(
            EinsumError::MissingOutput,
        ),
        parse_spec(s, operand_count) matches Ok((inputs, output)) ==> {
            &&& inputs.len() == operand_count
            &&& s == join_commas(inputs) + seq!['-', '>'] + output
            &&& forall|k: int, i: int|
                0 <= k < inputs.len() && 0 <= i < inputs[k].len() ==> #[trigger] inputs[k][i] != ','
            &&& forall|k: int, i: int|
                0 <= k < inputs.len() && 0 <= i < inputs[k].len() ==> ('a' <= #[trigger] inputs[k][i]
                    <= 'z') || ('A' <= inputs[k][i] <= 'Z')
            &&& forall|k: int, i: int, j: int|
                0 <= k < inputs.len() && 0 <= i < j < inputs[k].len() ==> #[trigger] inputs[k][i]
                    != #[trigger] inputs[k][j]
            &&& forall|i: int|
                0 <= i < output.len() ==> ('a' <= #[trigger] output[i] <= 'z') || ('A' <= output[i]
                    <= 'Z')
            &&& forall|i: int, j: int| 0 <= i < j < output.len() ==> output[i] != output[j]
        },
{
    if exists|i: int| 0 <= i && i + 3 <= s.len() && s[i] == '.' && s[i + 1] == '.' && #[trigger] s[i + 2] == '.' {
        let i = choose|i: int| 0 <= i && i + 3 <= s.len() && s[i] == '.' && s[i + 1] == '.' && #[trigger] s[i + 2] == '.';
        assert(dots_at(s, i));
    } else {
        assert(!has_ellipsis(s));
        lemma_first_arrow_found(s, s.len() as int);
    }
    if let Ok((inputs, output)) = parse_spec(s, operand_count) {
        let p = first_arrow(s)->0;
        lemma_first_arrow_found(s, s.len() as int);
        lemma_split_commas_joins_back(s.subrange(0, p));
        assert(s =~= s.subrange(0, p) + seq!['-', '>'] + s.subrange(p + 2, s.len() as int));
        let all = inputs.push(output);
        assert forall|k: int| 0 <= k < inputs.len() implies term_error(#[trigger] inputs[k]) is None by {
            lemma_terms_error_none(all, k);
            assert(all[k] == inputs[k]);
        }
        lemma_terms_error_none(all, inputs.len() as int);
        assert(all[inputs.len() as int] == output);
        lemma_term_error_none(output);
        assert forall|k: int, i: int|
            0 <= k < inputs.len() && 0 <= i < inputs[k].len() implies ('a' <= #[trigger] inputs[k][i]
            <= 'z') || ('A' <= inputs[k][i] <= 'Z') by {
            lemma_term_error_none(inputs[k]);
        }
        assert forall|k: int, i: int, j: int|
            0 <= k < inputs.len() && 0 <= i < j < inputs[k].len() implies #[trigger] inputs[k][i]
            != #[trigger] inputs[k][j] by {
            lemma_term_error_none(inputs[k]);
        }
    }
}

proof fn lemma_first_arrow_found(s: Seq<char>, k: int)
    requires
        0 <= k <= s.len(),
    ensures
        match first_arrow_before(s, k) {
            Some(p) => 0 <= p && p + 1 < s.len() && p + 1 < k + 1 && s[p] == '-' && s[p + 1] == '>',
            None => forall|i: int| 0 <= i && i + 1 < s.len() && i + 1 <= k ==> !(s[i] == '-' && #[trigger] s[i + 1] == '>'),
        },
    decreases k,
{
    if k > 0 {
        lemma_first_arrow_found(s, k - 1);
    }
}

fn find_ellipsis(chars: &Vec<char>) -> (found: bool)
    ensures
        found == has_ellipsis(chars@),
{
    if chars.len() < 3 {
        proof {
            assert forall|j: int| !#[trigger] dots_at(chars@, j) by {}
        }
        return false;
    }
    let mut i: usize = 0;
    while i <= chars.len() - 3
        invariant
            chars@.len() >= 3,
            forall|j: int| 0 <= j < i ==> !#[trigger] dots_at(chars@, j),
        decreases chars@.len() - i,
    {
        if chars[i] == '.' && chars[i + 1] == '.' && chars[i + 2] == '.' {
            assert(dots_at(chars@, i as int));
            return true;
        }
        i = i + 1;
    }
    assert forall|j: int| !#[trigger] dots_at(chars@, j) by {
        if dots_at(chars@, j) {
            assert(j < i);
        }
    }
    false
}

fn find_arrow(chars: &Vec<char>) -> (pos: Option<usize>)
    ensures
        match pos {
            Some(p) => first_arrow(chars@) == Some(p as int) && p + 2 <= chars@.len(),
            None => first_arrow(chars@) is None,
        },
{
    let mut k: usize = 0;
    while k < chars.len()
        invariant
            k <= chars@.len(),
            first_arrow_before(chars@, k as int) is None,
        decreases chars@.len() - k,
    {
        if k + 1 < chars.len() && chars[k] == '-' && chars[k + 1] == '>' {
            proof {
                assert(first_arrow_before(chars@, k + 1) == Some(k as int));
                lemma_arrow_stays(chars@, k + 1, chars@.len() as int);
            }
            return Some(k);
        }
        k = k + 1;
    }
    proof {
        lemma_arrow_none_extends(chars@, k as int);
    }
    None
}

proof fn lemma_arrow_stays(s: Seq<char>, k: int, j: int)
    requires
        0 < k <= j <= s.len(),
        first_arrow_before(s, k) is Some,
    ensures
        first_arrow_before(s, j) == first_arrow_before(s, k),
    decreases j - k,
{
    if j > k {
        lemma_arrow_stays(s, k, j - 1);
    }
}

proof fn lemma_arrow_none_extends(s: Seq<char>, k: int)
    requires
        k == s.len(),
        first_arrow_before(s, k) is None,
    ensures
        first_arrow(s) is None,
{
}

/// Splits `chars[start..end]` at its commas.
fn split_at_commas(chars: &Vec<char>, end: usize) -> (pieces: Vec<Vec<char>>)
    requires
        end <= chars@.len(),
    ensures
        pieces@.len() == split_commas(chars@.subrange(0, end as int)).len(),
        forall|k: int|
            0 <= k < pieces@.len() ==> #[trigger] pieces@[k]@ == split_commas(
                chars@.subrange(0, end as int),
            )[k],
{
    let mut pieces: Vec<Vec<char>> = Vec::new();
    pieces.push(Vec::new());
    let mut i: usize = 0;
    proof {
        assert(chars@.subrange(0, 0) =~= Seq::<char>::empty());
    }
    while i < end
        invariant
            i <= end <= chars@.len(),
            pieces@.len() == split_commas(chars@.subrange(0, i as int)).len(),
            pieces@.len() > 0,
            forall|k: int|
                0 <= k < pieces@.len() ==> #[trigger] pieces@[k]@ == split_commas(
                    chars@.subrange(0, i as int),
                )[k],
        decreases end - i,
    {
        let c = chars[i];
        let ghost before = split_commas(chars@.subrange(0, i as int));
        proof {
            assert(chars@.subrange(0, i + 1).drop_last() =~= chars@.subrange(0, i as int));
            lemma_split_nonempty(chars@.subrange(0, i as int));
        }
        if c == ',' {
            pieces.push(Vec::new());
        } else {
            let last = pieces.len() - 1;
            let mut piece = pieces.remove(last);
            piece.push(c);
            pieces.push(piece);
            proof {
                assert forall|k: int| 0 <= k < pieces@.len() implies #[trigger] pieces@[k]@
                    == split_commas(chars@.subrange(0, i + 1))[k] by {
                    if k == last {
                        assert(pieces@[k]@ == before[k].push(c));
                    }
                }
            }
        }
        i = i + 1;
    }
    pieces
}

proof fn lemma_split_nonempty(s: Seq<char>)
    ensures
        split_commas(s).len() > 0,
    decreases s.len(),
{
    if s.len() > 0 {
        lemma_split_nonempty(s.drop_last());
    }
}

fn copy_chars(chars: &Vec<char>, start: usize, end: usize) -> (part: Vec<char>)
    requires
        start <= end <= chars@.len(),
    ensures
        part@ == chars@.subrange(start as int, end as int),
{
    let mut part: Vec<char> = Vec::new();
    let mut i: usize = start;
    while i < end
        invariant
            start <= i <= end <= chars@.len(),
            part@ == chars@.subrange(start as int, i as int),
        decreases end - i,
    {
        part.push(chars[i]);
        i = i + 1;
    }
    part
}

fn check_term(term: &Vec<char>) -> (r: Result<(), EinsumError>)
    ensures
        match r {
            Ok(_) => term_error(term@) is None,
            Err(e) => term_error(term@) == Some(e),
        },
{
    let mut i: usize = 0;
    while i < term.len()
        invariant
            i <= term@.len(),
            term_error(term@.take(i as int)) is None,
        decreases term@.len() - i,
    {
        let label = term[i];
        proof {
            assert(term@.take(i + 1).drop_last() =~= term@.take(i as int));
            assert(term@.take(i + 1).last() == label);
        }
        if !(('a' <= label && label <= 'z') || ('A' <= label && label <= 'Z')) {
            proof {
                lemma_term_error_stays(term@, i + 1);
            }
            return Err(EinsumError::NonAlphabetic);
        }
        let mut j: usize = 0;
        while j < i
            invariant
                j <= i < term@.len(),
                label == term@[i as int],
                is_ascii_alphabetic(label),
                term_error(term@.take(i as int)) is None,
                forall|k: int| 0 <= k < j ==> term@[k] != label,
            decreases i - j,
        {
            if term[j] == label {
                proof {
                    assert(term@.take(i + 1).drop_last() =~= term@.take(i as int));
                    assert(term@.take(i + 1).last() == label);
                    assert(term@.take(i as int)[j as int] == label);
                    assert(term@.take(i as int).contains(label));
                    lemma_term_error_stays(term@, i + 1);
                }
                return Err(EinsumError::RepeatedLabel);
            }
            j = j + 1;
        }
        proof {
            assert(!term@.take(i as int).contains(label)) by {
                if term@.take(i as int).contains(label) {
                    let k = choose|k: int| 0 <= k < i && term@.take(i as int)[k] == label;
                    assert(term@[k] == label);
                }
            }
        }
        i = i + 1;
    }
    proof {
        assert(term@.take(i as int) =~= term@);
    }
    Ok(())
}

proof fn lemma_term_error_stays(term: Seq<char>, k: int)
    requires
        0 < k <= term.len(),
        term_error(term.take(k)) is Some,
    ensures
        term_error(term) == term_error(term.take(k)),
    decreases term.len() - k,
{
    if k < term.len() {
        assert(term.take(k + 1).drop_last() =~= term.take(k));
        lemma_term_error_stays(term, k + 1);
    } else {
        assert(term.take(k) =~= term);
    }
}

proof fn lemma_terms_error_stays(terms: Seq<Seq<char>>, k: int)
    requires
        0 < k <= terms.len(),
        terms_error(terms.take(k)) is Some,
    ensures
        terms_error(terms) == terms_error(terms.take(k)),
    decreases terms.len() - k,
{
    if k < terms.len() {
        assert(terms.take(k + 1).drop_last() =~= terms.take(k));
        lemma_terms_error_stays(terms, k + 1);
    } else {
        assert(terms.take(k) =~= terms);
    }
}

/// The input terms and the output term of einsum subscripts such as
/// `"ij,jk->ik"`, for `operand_count` operands.
pub fn parse_einsum_subscripts(subscripts: &str, operand_count: usize) -> (parsed: Result<
    (Vec<Vec<char>>, Vec<char>),
    EinsumError,
>)
    ensures
        match parsed {
            Ok((inputs, output)) => parse_spec(subscripts@, operand_count) matches Ok((i, o)) && o
                == output@ && i.len() == inputs@.len() && forall|k: int|
                0 <= k < inputs@.len() ==> #[trigger] inputs@[k]@ == i[k],
            Err(e) => parse_spec(subscripts@, operand_count) == Err::<
                (Seq<Seq<char>>, Seq<char>),
                EinsumError,
            >(e),
        },
{
    let chars = chars_of(subscripts);
    if find_ellipsis(&chars) {
        return Err(EinsumError::Ellipsis);
    }
    let arrow = match find_arrow(&chars) {
        Some(p) => p,
        None => {
            return Err(EinsumError::MissingOutput);
        },
    };

    let inputs = split_at_commas(&chars, arrow);
    let n = chars.len();
    assert(arrow + 2 <= n);
    let output = copy_chars(&chars, arrow + 2, n);
    if inputs.len() != operand_count {
        return Err(EinsumError::OperandCount { expected: inputs.len(), received: operand_count });
    }
    let ghost all = split_commas(chars@.subrange(0, arrow as int)).push(output@);
    let mut t: usize = 0;
    while t < inputs.len()
        invariant
            t <= inputs@.len(),
            chars@ == subscripts@,
            !has_ellipsis(chars@),
            first_arrow(chars@) == Some(arrow as int),
            arrow + 2 <= chars@.len(),
            inputs@.len() == operand_count,
            output@ == chars@.subrange(arrow + 2, chars@.len() as int),
            inputs@.len() == split_commas(chars@.subrange(0, arrow as int)).len(),
            forall|k: int|
                0 <= k < inputs@.len() ==> #[trigger] inputs@[k]@ == split_commas(
                    chars@.subrange(0, arrow as int),
                )[k],
            all == split_commas(chars@.subrange(0, arrow as int)).push(output@),
            terms_error(all.take(t as int)) is None,
        decreases inputs@.len() - t,
    {
        proof {
            assert(all.take(t + 1).drop_last() =~= all.take(t as int));
            assert(all.take(t + 1).last() == inputs@[t as int]@);
        }
        match check_term(&inputs[t]) {
            Ok(_) => {},
            Err(e) => {
                proof {
                    lemma_terms_error_stays(all, t + 1);
                }
                return Err(e);
            },
        }
        t = t + 1;
    }
    proof {
        assert(all.drop_last() =~= all.take(t as int));
        assert(all.last() == output@);
        assert(terms_error(all) == term_error(output@));
    }
    match check_term(&output) {
        Ok(_) => {},
        Err(e) => {
            return Err(e);
        },
    }
    Ok((inputs, output))
}



// ----- sizes of labels -----

/// The sizes given to labels by operands `labels[i]` of size `sizes[i]`,
/// taken in order from the sizes `known`; the first label given a size
/// other than the one it has is refused.
pub open spec fn fold_label_sizes(known: Map<char, usize>, labels: Seq<char>, sizes: Seq<usize>) -> Result<
    Map<char, usize>,
    EinsumError,
>
    recommends
        labels.len() == sizes.len(),
    decreases labels.len(),
{
    if labels.len() == 0 {
        Ok(known)
    } else {
        match fold_label_sizes(known, labels.drop_last(), sizes.take(labels.len() - 1)) {
            Err(e) => Err(e),
            Ok(m) => {
                let label = labels.last();
                let size = sizes[labels.len() - 1];
                if m.dom().contains(label) && m[label] != size {
                    Err(EinsumError::IncompatibleLabel { label, existing: m[label], size })
                } else {
                    Ok(m.insert(label, size))
                }
            },
        }
    }
}

pub open spec fn label_pairs_map(entries: Seq<(char, usize)>) -> Map<char, usize>
    decreases entries.len(),
{
    if entries.len() == 0 {
        Map::empty()
    } else {
        label_pairs_map(entries.drop_last()).insert(entries.last().0, entries.last().1)
    }
}

/// The size of each label seen so far, in order of first appearance.
#[derive(Debug)]
pub struct LabelSizes {
    entries: Vec<(char, usize)>,
}

impl View for LabelSizes {
    type V = Map<char, usize>;

    closed spec fn view(&self) -> Map<char, usize> {
        label_pairs_map(self.entries@)
    }
}

proof fn lemma_label_pairs_domain(entries: Seq<(char, usize)>)
    ensures
        forall|c: char|
            label_pairs_map(entries).dom().contains(c) <==> exists|i: int|
                0 <= i < entries.len() && entries[i].0 == c,
    decreases entries.len(),
{
    if entries.len() > 0 {
        let prev = entries.drop_last();
        lemma_label_pairs_domain(prev);
        assert(label_pairs_map(entries) == label_pairs_map(prev).insert(
            entries.last().0,
            entries.last().1,
        ));
        assert forall|c: char| label_pairs_map(entries).dom().contains(c) implies exists|i: int|
            0 <= i < entries.len() && entries[i].0 == c by {
            if c != entries.last().0 {
                assert(label_pairs_map(prev).dom().contains(c));
                let i = choose|i: int| 0 <= i < prev.len() && prev[i].0 == c;
                assert(entries[i] == prev[i]);
            } else {
                assert(entries[entries.len() - 1].0 == c);
            }
        }
        assert forall|c: char| (exists|i: int| 0 <= i < entries.len() && entries[i].0 == c) implies label_pairs_map(
            entries,
        ).dom().contains(c) by {
            let i = choose|i: int| 0 <= i < entries.len() && entries[i].0 == c;
            if i < entries.len() - 1 {
                assert(prev[i] == entries[i]);
            }
        }
    }
}

proof fn lemma_label_pairs_value(entries: Seq<(char, usize)>, i: int)
    requires
        0 <= i < entries.len(),
        forall|a: int, b: int| 0 <= a < b < entries.len() ==> entries[a].0 != entries[b].0,
    ensures
        label_pairs_map(entries)[entries[i].0] == entries[i].1,
    decreases entries.len(),
{
    if i < entries.len() - 1 {
        lemma_label_pairs_value(entries.drop_last(), i);
        assert(entries.drop_last()[i] == entries[i]);
    }
}

/// No label occurs twice among `entries`.
pub open spec fn distinct_labels(entries: Seq<(char, usize)>) -> bool {
    forall|a: int, b: int| 0 <= a < b < entries.len() ==> entries[a].0 != entries[b].0
}

impl LabelSizes {
    /// Each label has one size.
    #[verifier::type_invariant]
    spec fn labels_distinct(&self) -> bool {
        distinct_labels(self.entries@)
    }

    /// No label sized yet.
    pub fn new() -> (sizes: Self)
        ensures
            sizes@ == Map::<char, usize>::empty(),
    {
        LabelSizes { entries: Vec::new() }
    }

    /// The size of `label`, if it has one.
    pub fn get(&self, label: char) -> (size: Option<usize>)
        ensures
            match size {
                Some(n) => self@.dom().contains(label) && self@[label] == n,
                None => !self@.dom().contains(label),
            },
    {
        proof {
            use_type_invariant(self);
            lemma_label_pairs_domain(self.entries@);
        }
        let mut i: usize = 0;
        while i < self.entries.len()
            invariant
                i <= self.entries@.len(),
                distinct_labels(self.entries@),
                forall|j: int| 0 <= j < i ==> self.entries@[j].0 != label,
            decreases self.entries@.len() - i,
        {
            if self.entries[i].0 == label {
                proof {
                    lemma_label_pairs_value(self.entries@, i as int);
                    lemma_label_pairs_domain(self.entries@);
                }
                return Some(self.entries[i].1);
            }
            i = i + 1;
        }
        None
    }

    /// Adds the labels of one operand's term with the sizes of its shape:
    /// refused when the ranks differ, or when a label already has another
    /// size.
    pub fn add_operand(self, term: &[char], shape: &[usize]) -> (added: Result<Self, EinsumError>)
        ensures
            shape@.len() != term@.len() ==> added == Err::<Self, EinsumError>(
                EinsumError::RankMismatch { operand_rank: shape@.len() as usize, subscript_rank: term@.len() as usize },
            ),
            shape@.len() == term@.len() ==> match fold_label_sizes(self@, term@, shape@) {
                Ok(m) => added matches Ok(s) && s@ == m,
                Err(e) => added == Err::<Self, EinsumError>(e),
            },
    {
        if shape.len() != term.len() {
            return Err(
                EinsumError::RankMismatch { operand_rank: shape.len(), subscript_rank: term.len() },
            );
        }
        let mut sizes = self;
        let ghost start = sizes@;
        let mut i: usize = 0;
        while i < term.len()
            invariant
                i <= term@.len(),
                term@.len() == shape@.len(),
                start == self@,
                fold_label_sizes(start, term@.take(i as int), shape@.take(i as int)) == Ok::<
                    Map<char, usize>,
                    EinsumError,
                >(sizes@),
            decreases term@.len() - i,
        {
            let label = term[i];
            let size = shape[i];
            proof {
                assert(term@.take(i + 1).drop_last() =~= term@.take(i as int));
                assert(shape@.take(i + 1).take(i as int) =~= shape@.take(i as int));
                assert(term@.take(i + 1).last() == label);
                assert(shape@.take(i + 1)[i as int] == size);
            }
            match sizes.get(label) {
                Some(existing) => {
                    if existing != size {
                        proof {
                            lemma_fold_error_stays(start, term@, shape@, i + 1);
                        }
                        return Err(EinsumError::IncompatibleLabel { label, existing, size });
                    }
                    proof {
                        assert(sizes@.insert(label, size) =~= sizes@);
                    }
                },
                None => {
                    proof {
                        use_type_invariant(&sizes);
                    }
                    let ghost before = sizes.entries@;
                    proof {
                        lemma_label_pairs_domain(before);
                    }
                    let mut entries: Vec<(char, usize)> = Vec::new();
                    std::mem::swap(&mut entries, &mut sizes.entries);
                    entries.push((label, size));
                    proof {
                        assert(entries@.drop_last() =~= before);
                        assert forall|a: int, b: int|
                            0 <= a < b < entries@.len() implies entries@[a].0
                            != entries@[b].0 by {
                            if b == before.len() {
                                assert(entries@[a] == before[a]);
                            }
                        }
                    }
                    sizes.entries = entries;
                },
            }
            i = i + 1;
        }
        proof {
            assert(term@.take(i as int) =~= term@);
            assert(shape@.take(i as int) =~= shape@);
        }
        Ok(sizes)
    }
}

proof fn lemma_fold_error_stays(known: Map<char, usize>, labels: Seq<char>, sizes: Seq<usize>, k: int)
    requires
        0 < k <= labels.len(),
        labels.len() == sizes.len(),
        fold_label_sizes(known, labels.take(k), sizes.take(k)) is Err,
    ensures
        fold_label_sizes(known, labels, sizes) == fold_label_sizes(known, labels.take(k), sizes.take(k)),
    decreases labels.len() - k,
{
    if k < labels.len() {
        assert(labels.take(k + 1).drop_last() =~= labels.take(k));
        assert(sizes.take(k + 1).take(k) =~= sizes.take(k));
        lemma_fold_error_stays(known, labels, sizes, k + 1);
    } else {
        assert(labels.take(k) =~= labels);
        assert(sizes.take(k) =~= sizes);
    }
}

/// The first output label without a size.
pub open spec fn first_unknown(sizes: Map<char, usize>, labels: Seq<char>) -> Option<char>
    decreases labels.len(),
{
    if labels.len() == 0 {
        None
    } else {
        match first_unknown(sizes, labels.drop_last()) {
            Some(c) => Some(c),
            None => if sizes.dom().contains(labels.last()) {
                None
            } else {
                Some(labels.last())
            },
        }
    }
}

/// Checks that every output label appears in some input term.
pub fn check_output_labels(sizes: &LabelSizes, output: &[char]) -> (r: Result<(), EinsumError>)
    ensures
        match first_unknown(sizes@, output@) {
            Some(c) => r == Err::<(), EinsumError>(EinsumError::UnknownOutputLabel(c)),
            None => r is Ok,
        },
{
    let mut i: usize = 0;
    while i < output.len()
        invariant
            i <= output@.len(),
            first_unknown(sizes@, output@.take(i as int)) is None,
        decreases output@.len() - i,
    {
        proof {
            assert(output@.take(i + 1).drop_last() =~= output@.take(i as int));
        }
        if sizes.get(output[i]).is_none() {
            proof {
                lemma_unknown_stays(sizes@, output@, i + 1);
            }
            return Err(EinsumError::UnknownOutputLabel(output[i]));
        }
        i = i + 1;
    }
    proof {
        assert(output@.take(i as int) =~= output@);
    }
    Ok(())
}

proof fn lemma_unknown_stays(sizes: Map<char, usize>, labels: Seq<char>, k: int)
    requires
        0 < k <= labels.len(),
        first_unknown(sizes, labels.take(k)) is Some,
    ensures
        first_unknown(sizes, labels) == first_unknown(sizes, labels.take(k)),
    decreases labels.len() - k,
{
    if k < labels.len() {
        assert(labels.take(k + 1).drop_last() =~= labels.take(k));
        lemma_unknown_stays(sizes, labels, k + 1);
    } else {
        assert(labels.take(k) =~= labels);
    }
}

// ----- the coefficient tensor -----

/// The labels of the coefficient tensor: the output labels, then the labels
/// of the expression operand not among them, in order.
pub open spec fn coefficient_labels_spec(output: Seq<char>, expr: Seq<char>) -> Seq<char>
    decreases expr.len(),
{
    if expr.len() == 0 {
        output
    } else {
        let labels = coefficient_labels_spec(output, expr.drop_last());
        if labels.contains(expr.last()) {
            labels
        } else {
            labels.push(expr.last())
        }
    }
}

fn contains_char(labels: &Vec<char>, c: char) -> (found: bool)
    ensures
        found == labels@.contains(c),
{
    let mut i: usize = 0;
    while i < labels.len()
        invariant
            i <= labels@.len(),
            forall|j: int| 0 <= j < i ==> labels@[j] != c,
        decreases labels@.len() - i,
    {
        if labels[i] == c {
            proof {
                assert(labels@[i as int] == c);
            }
            return true;
        }
        i = i + 1;
    }
    false
}

/// The labels of the coefficient tensor multiplying the expression operand.
pub fn coefficient_labels(output: &[char], expr: &[char]) -> (labels: Vec<char>)
    ensures
        labels@ == coefficient_labels_spec(output@, expr@),
{
    let mut labels: Vec<char> = Vec::new();
    let mut k: usize = 0;
    while k < output.len()
        invariant
            k <= output@.len(),
            labels@ == output@.take(k as int),
        decreases output@.len() - k,
    {
        labels.push(output[k]);
        k = k + 1;
        proof {
            assert(labels@ =~= output@.take(k as int));
        }
    }
    proof {
        assert(output@.take(k as int) =~= output@);
        assert(expr@.take(0) =~= Seq::<char>::empty());
    }
    let mut i: usize = 0;
    while i < expr.len()
        invariant
            i <= expr@.len(),
            labels@ == coefficient_labels_spec(output@, expr@.take(i as int)),
        decreases expr@.len() - i,
    {
        proof {
            assert(expr@.take(i + 1).drop_last() =~= expr@.take(i as int));
        }
        if !contains_char(&labels, expr[i]) {
            labels.push(expr[i]);
        }
        i = i + 1;
    }
    proof {
        assert(expr@.take(i as int) =~= expr@);
    }
    labels
}

/// The sizes of `labels`, all of which have one.
pub fn label_shape(sizes: &LabelSizes, labels: &[char]) -> (shape: Vec<usize>)
    requires
        forall|i: int| 0 <= i < labels@.len() ==> sizes@.dom().contains(#[trigger] labels@[i]),
    ensures
        shape@.len() == labels@.len(),
        forall|i: int| 0 <= i < labels@.len() ==> #[trigger] shape@[i] == sizes@[labels@[i]],
{
    let mut shape: Vec<usize> = Vec::new();
    let mut i: usize = 0;
    while i < labels.len()
        invariant
            i <= labels@.len(),
            forall|j: int| 0 <= j < labels@.len() ==> sizes@.dom().contains(#[trigger] labels@[j]),
            shape@.len() == i,
            forall|j: int| 0 <= j < i ==> #[trigger] shape@[j] == sizes@[labels@[j]],
        decreases labels@.len() - i,
    {
        let size = match sizes.get(labels[i]) {
            Some(n) => n,
            None => 0,
        };
        shape.push(size);
        i = i + 1;
    }
    shape
}

/// The coefficient labels that some numeric operand holds, in order.
pub open spec fn source_labels_spec(labels: Seq<char>, numeric: Seq<Seq<char>>) -> Seq<char> {
    labels.filter(|c: char| exists|t: int| 0 <= t < numeric.len() && #[trigger] numeric[t].contains(c))
}

/// The coefficient labels held by some numeric operand's term.
pub fn source_labels(labels: &[char], numeric: &[Vec<char>]) -> (kept: Vec<char>)
    ensures
        kept@ == source_labels_spec(labels@, numeric@.map_values(|t: Vec<char>| t@)),
{
    let ghost terms = numeric@.map_values(|t: Vec<char>| t@);
    let mut kept: Vec<char> = Vec::new();
    let mut i: usize = 0;
    while i < labels.len()
        invariant
            i <= labels@.len(),
            terms == numeric@.map_values(|t: Vec<char>| t@),
            kept@ == source_labels_spec(labels@.take(i as int), terms),
        decreases labels@.len() - i,
    {
        let c = labels[i];
        let mut found = false;
        let mut t: usize = 0;
        while t < numeric.len()
            invariant
                t <= numeric@.len(),
                terms == numeric@.map_values(|t: Vec<char>| t@),
                found == exists|u: int| 0 <= u < t && #[trigger] terms[u].contains(c),
            decreases numeric@.len() - t,
        {
            if contains_char(&numeric[t], c) {
                found = true;
            }
            proof {
                assert(terms[t as int] == numeric@[t as int]@);
                if found {
                    if numeric@[t as int]@.contains(c) {
                        assert(terms[t as int].contains(c));
                    }
                }
            }
            t = t + 1;
        }
        proof {
            assert(labels@.take(i + 1) =~= labels@.take(i as int).push(c));
            labels@.take(i as int).lemma_filter_push(
                c,
                |x: char| exists|u: int| 0 <= u < terms.len() && #[trigger] terms[u].contains(x),
            );
        }
        if found {
            kept.push(c);
        }
        i = i + 1;
    }
    proof {
        assert(labels@.take(i as int) =~= labels@);
    }
    kept
}


// ----- where each coefficient goes -----

/// The coordinate of flat index `f` along axis `a` of a row-major `shape`.
pub open spec fn digit(f: int, shape: Seq<usize>, a: int) -> int {
    (f / crate::indexing::span(shape, a + 1) as int) % shape[a] as int
}

/// The flat index in a row-major `target` shape of the cell whose
/// coordinate along its axis `a` is the coordinate of `f` along axis
/// `positions[a]` of `shape`, over the first `k` axes of `target`.
pub open spec fn gather_flat(
    f: int,
    shape: Seq<usize>,
    positions: Seq<usize>,
    target: Seq<usize>,
    k: int,
) -> int
    decreases k,
{
    if k <= 0 {
        0
    } else {
        gather_flat(f, shape, positions, target, k - 1) + digit(f, shape, positions[k - 1] as int)
            * crate::indexing::span(target, k) as int
    }
}

/// Each axis of `target` takes its coordinate from an axis of `shape` of
/// the same size.
pub open spec fn positions_match(shape: Seq<usize>, positions: Seq<usize>, target: Seq<usize>) -> bool {
    &&& positions.len() == target.len()
    &&& forall|a: int|
        0 <= a < positions.len() ==> #[trigger] positions[a] < shape.len() && shape[positions[a] as int]
            == target[a]
}

pub(crate) fn gather_one(
    f: usize,
    shape: &[usize],
    strides: &[usize],
    positions: &[usize],
    target: &[usize],
    target_strides: &[usize],
) -> (flat: usize)
    requires
        crate::indexing::spans_fit(shape@),
        crate::indexing::spans_fit(target@),
        f < crate::indexing::span(shape@, 0),
        positions_match(shape@, positions@, target@),
        strides@.len() == shape@.len(),
        forall|a: int| 0 <= a < shape@.len() ==> #[trigger] strides@[a] == crate::indexing::span(shape@, a + 1),
        target_strides@.len() == target@.len(),
        forall|a: int|
            0 <= a < target@.len() ==> #[trigger] target_strides@[a] == crate::indexing::span(target@, a + 1),
    ensures
        flat == gather_flat(f as int, shape@, positions@, target@, target@.len() as int),
        flat < crate::indexing::span(target@, 0),
{
    let mut acc: usize = 0;
    let mut k: usize = 0;
    proof {
        assert(target@.subrange(0, target@.len() as int) =~= target@);
        assert(crate::indexing::span(target@, 0) <= usize::MAX);
    }
    while k < positions.len()
        invariant
            k <= positions@.len(),
            crate::indexing::spans_fit(shape@),
            crate::indexing::spans_fit(target@),
            f < crate::indexing::span(shape@, 0),
            positions_match(shape@, positions@, target@),
            strides@.len() == shape@.len(),
            forall|a: int| 0 <= a < shape@.len() ==> #[trigger] strides@[a] == crate::indexing::span(shape@, a + 1),
            target_strides@.len() == target@.len(),
            forall|a: int|
                0 <= a < target@.len() ==> #[trigger] target_strides@[a] == crate::indexing::span(target@, a + 1),
            acc == gather_flat(f as int, shape@, positions@, target@, k as int),
            acc + crate::indexing::span(target@, k as int) <= crate::indexing::span(target@, 0),
            crate::indexing::span(target@, 0) <= usize::MAX,
        decreases positions@.len() - k,
    {
        let p = positions[k];
        proof {
            crate::sparse::lemma_span_positive(shape@, p as int, f as int);
            crate::sparse::lemma_span_positive(shape@, p + 1, f as int);
            crate::indexing::lemma_span_step(shape@, p as int);
            assert(shape@[p as int] > 0) by (nonlinear_arith)
                requires
                    crate::indexing::span(shape@, p as int) == shape@[p as int] * crate::indexing::span(
                        shape@,
                        p + 1,
                    ),
                    crate::indexing::span(shape@, p as int) > 0,
            ;
        }
        let coordinate = (f / strides[p]) % shape[p];
        proof {
            vstd::arithmetic::div_mod::lemma_mod_pos_bound((f / strides[p as int]) as int, shape@[p as int] as int);
            crate::indexing::lemma_span_step(target@, k as int);
            crate::indexing::lemma_step_offset(
                coordinate as int,
                target@[k as int] as int,
                crate::indexing::span(target@, k + 1),
            );
        }
        acc = acc + coordinate * target_strides[k];
        k = k + 1;
    }
    proof {
        assert(target@.subrange(k as int, target@.len() as int) =~= Seq::<usize>::empty());
    }
    acc
}

/// For every flat index `f` of the coefficient tensor of `coeff_shape`,
/// the flat index of the expression cell it multiplies and of the output
/// cell it adds to.
pub fn einsum_targets(
    coeff_shape: &[usize],
    expr_positions: &[usize],
    expr_shape: &[usize],
    output_positions: &[usize],
    output_shape: &[usize],
) -> (targets: Vec<(usize, usize)>)
    requires
        crate::indexing::spans_fit(coeff_shape@),
        crate::indexing::spans_fit(expr_shape@),
        crate::indexing::spans_fit(output_shape@),
        positions_match(coeff_shape@, expr_positions@, expr_shape@),
        positions_match(coeff_shape@, output_positions@, output_shape@),
    ensures
        targets@.len() == crate::indexing::span(coeff_shape@, 0),
        forall|f: int|
            0 <= f < targets@.len() ==> (#[trigger] targets@[f]).0 == gather_flat(
                f,
                coeff_shape@,
                expr_positions@,
                expr_shape@,
                expr_shape@.len() as int,
            ) && targets@[f].1 == gather_flat(
                f,
                coeff_shape@,
                output_positions@,
                output_shape@,
                output_shape@.len() as int,
            ),
        forall|f: int|
            0 <= f < targets@.len() ==> (#[trigger] targets@[f]).0 < crate::indexing::span(expr_shape@, 0)
                && targets@[f].1 < crate::indexing::span(output_shape@, 0),
{
    let strides = crate::indexing::row_major_strides(coeff_shape);
    let expr_strides = crate::indexing::row_major_strides(expr_shape);
    let output_strides = crate::indexing::row_major_strides(output_shape);
    proof {
        assert(crate::indexing::span(coeff_shape@, 0) <= usize::MAX);
    }
    let n: usize = if coeff_shape.len() == 0 {
        proof {
            assert(coeff_shape@.subrange(0, 0) =~= Seq::<usize>::empty());
        }
        1
    } else {
        proof {
            crate::indexing::lemma_span_step(coeff_shape@, 0);
        }
        coeff_shape[0] * strides[0]
    };
    let mut targets: Vec<(usize, usize)> = Vec::new();
    let mut f: usize = 0;
    while f < n
        invariant
            f <= n,
            n == crate::indexing::span(coeff_shape@, 0),
            crate::indexing::spans_fit(coeff_shape@),
            crate::indexing::spans_fit(expr_shape@),
            crate::indexing::spans_fit(output_shape@),
            positions_match(coeff_shape@, expr_positions@, expr_shape@),
            positions_match(coeff_shape@, output_positions@, output_shape@),
            strides@.len() == coeff_shape@.len(),
            forall|a: int|
                0 <= a < coeff_shape@.len() ==> #[trigger] strides@[a] == crate::indexing::span(coeff_shape@, a + 1),
            expr_strides@.len() == expr_shape@.len(),
            forall|a: int|
                0 <= a < expr_shape@.len() ==> #[trigger] expr_strides@[a] == crate::indexing::span(expr_shape@, a + 1),
            output_strides@.len() == output_shape@.len(),
            forall|a: int|
                0 <= a < output_shape@.len() ==> #[trigger] output_strides@[a] == crate::indexing::span(
                    output_shape@,
                    a + 1,
                ),
            targets@.len() == f,
            forall|g: int|
                0 <= g < f ==> (#[trigger] targets@[g]).0 == gather_flat(
                    g,
                    coeff_shape@,
                    expr_positions@,
                    expr_shape@,
                    expr_shape@.len() as int,
                ) && targets@[g].1 == gather_flat(
                    g,
                    coeff_shape@,
                    output_positions@,
                    output_shape@,
                    output_shape@.len() as int,
                ),
            forall|g: int|
                0 <= g < f ==> (#[trigger] targets@[g]).0 < crate::indexing::span(expr_shape@, 0)
                    && targets@[g].1 < crate::indexing::span(output_shape@, 0),
        decreases n - f,
    {
        let e = gather_one(f, coeff_shape, &strides, expr_positions, expr_shape, &expr_strides);
        let o = gather_one(f, coeff_shape, &strides, output_positions, output_shape, &output_strides);
        targets.push((e, o));
        f = f + 1;
    }
    targets
}


/// The position of `c` in `labels`, if it occurs.
pub open spec fn position_in(labels: Seq<char>, c: char) -> Option<int>
    decreases labels.len(),
{
    if labels.len() == 0 {
        None
    } else {
        match position_in(labels.drop_last(), c) {
            Some(i) => Some(i),
            None => if labels.last() == c {
                Some(labels.len() - 1)
            } else {
                None
            },
        }
    }
}

proof fn lemma_position_in(labels: Seq<char>, c: char)
    ensures
        position_in(labels, c) matches Some(i) ==> 0 <= i < labels.len() && labels[i] == c,
        position_in(labels, c) is None ==> !labels.contains(c),
    decreases labels.len(),
{
    if labels.len() > 0 {
        lemma_position_in(labels.drop_last(), c);
        if position_in(labels, c) is None {
            assert(!labels.contains(c)) by {
                if labels.contains(c) {
                    let k = choose|k: int| 0 <= k < labels.len() && labels[k] == c;
                    if k < labels.len() - 1 {
                        assert(labels.drop_last()[k] == c);
                    }
                }
            }
        }
    }
}

fn position_of(labels: &[char], c: char) -> (pos: Option<usize>)
    ensures
        match pos {
            Some(p) => position_in(labels@, c) == Some(p as int),
            None => position_in(labels@, c) is None,
        },
{
    let mut i: usize = 0;
    while i < labels.len()
        invariant
            i <= labels@.len(),
            position_in(labels@.take(i as int), c) is None,
        decreases labels@.len() - i,
    {
        proof {
            assert(labels@.take(i + 1).drop_last() =~= labels@.take(i as int));
        }
        if labels[i] == c {
            proof {
                lemma_position_stays(labels@, i + 1);
            }
            return Some(i);
        }
        i = i + 1;
    }
    proof {
        assert(labels@.take(i as int) =~= labels@);
    }
    None
}

proof fn lemma_position_stays(labels: Seq<char>, k: int)
    requires
        0 < k <= labels.len(),
        position_in(labels.take(k), labels[k - 1]) == Some(k - 1),
    ensures
        position_in(labels, labels[k - 1]) == Some(k - 1),
    decreases labels.len() - k,
{
    if k < labels.len() {
        assert(labels.take(k + 1).drop_last() =~= labels.take(k));
        assert(labels.take(k + 1)[k - 1] == labels[k - 1]);
        lemma_position_stays_helper(labels, k, labels.len() as int);
        assert(labels.take(labels.len() as int) =~= labels);
    } else {
        assert(labels.take(k) =~= labels);
    }
}

proof fn lemma_position_stays_helper(labels: Seq<char>, k: int, j: int)
    requires
        0 < k < j <= labels.len(),
        position_in(labels.take(k), labels[k - 1]) == Some(k - 1),
    ensures
        position_in(labels.take(j), labels[k - 1]) == Some(k - 1),
    decreases j - k,
{
    assert(labels.take(j).drop_last() =~= labels.take(j - 1));
    if j - 1 > k {
        lemma_position_stays_helper(labels, k, j - 1);
    }
    if j == labels.len() {
        assert(labels.take(j) =~= labels);
    }
}

/// The position in `labels` of each label of `term`; `None` when one is
/// missing.
pub fn label_positions(labels: &[char], term: &[char]) -> (positions: Option<Vec<usize>>)
    ensures
        match positions {
            Some(p) => p@.len() == term@.len() && forall|a: int|
                0 <= a < term@.len() ==> position_in(labels@, #[trigger] term@[a]) == Some(
                    p@[a] as int,
                ),
            None => exists|a: int| 0 <= a < term@.len() && position_in(labels@, #[trigger] term@[a]) is None,
        },
{
    let mut positions: Vec<usize> = Vec::new();
    let mut a: usize = 0;
    while a < term.len()
        invariant
            a <= term@.len(),
            positions@.len() == a,
            forall|b: int| 0 <= b < a ==> position_in(labels@, #[trigger] term@[b]) == Some(positions@[b] as int),
        decreases term@.len() - a,
    {
        match position_of(labels, term[a]) {
            Some(p) => {
                positions.push(p);
            },
            None => {
                return None;
            },
        }
        a = a + 1;
    }
    Some(positions)
}

} // verus!
