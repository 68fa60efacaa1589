//! Validation of the state that the collision search starts from, and its
//! parsing from text.

use crate::packing::all_symbols;
use vstd::prelude::*;
use vstd::string::StringSliceAdditionalSpecFns;

verus! {

/// Why a state cannot start the collision search.
#[derive(Clone, Copy, Debug, PartialEq, Eq)]
pub enum StateError {
    /// A token is not a decimal number in `0..=255`.
    NotANumber,
    /// The state does not have 32 symbols.
    WrongLength,
    /// Symbols 0..4 differ from symbols 4..8.
    NotSymmetric,
    /// A symbol is above 3.
    SymbolOutOfRange,
}

/// The first check that `h` fails, in the order length, symmetry, range.
pub open spec fn state_check(h: Seq<u8>) -> Result<(), StateError> {
    if h.len() != 32 {
        Err(StateError::WrongLength)
    } else if h.subrange(0, 4) != h.subrange(4, 8) {
        Err(StateError::NotSymmetric)
    } else if !all_symbols(h) {
        Err(StateError::SymbolOutOfRange)
    } else {
        Ok(())
    }
}

/// Checks that `h` is a state of 32 symbols whose first quarter is symmetric.
pub fn validate_state(h: &[u8]) -> (r: Result<(), StateError>)
    ensures
        r == state_check(h@),
{
    if h.len() != 32 {
        return Err(StateError::WrongLength);
    }
    let mut i: usize = 0;
    while i < 4
        invariant
            h@.len() == 32,
            i <= 4,
            forall|j: int| 0 <= j < i ==> #[trigger] h@[j] == h@[j + 4],
        decreases 4 - i,
    {
        if h[i] != h[i + 4] {
            assert(h@.subrange(0, 4)[i as int] != h@.subrange(4, 8)[i as int]);
            return Err(StateError::NotSymmetric);
        }
        i = i + 1;
    }
    assert(h@.subrange(0, 4) =~= h@.subrange(4, 8));
    let mut i: usize = 0;
    while i < 32
        invariant
            h@.len() == 32,
            i <= 32,
            h@.subrange(0, 4) == h@.subrange(4, 8),
            forall|j: int| 0 <= j < i ==> h@[j] < 4,
        decreases 32 - i,
    {
        if h[i] > 3 {
            return Err(StateError::SymbolOutOfRange);
        }
        i = i + 1;
    }
    Ok(())
}

/// The pieces of `s` between single spaces, as `str::split(' ')` gives them:
/// an empty text is one empty piece, and two spaces in a row make an empty
/// piece between them.
pub open spec fn split_spaces(s: Seq<u8>) -> Seq<Seq<u8>>
    decreases s.len(),
{
    if s.len() == 0 {
        seq![Seq::empty()]
    } else {
        let t = split_spaces(s.drop_last());
        if s.last() == 32 {
            t.push(Seq::empty())
        } else {
            t.update(t.len() - 1, t.last().push(s.last()))
        }
    }
}

/// The value of a string of decimal digits.
pub open spec fn digits_value(t: Seq<u8>) -> nat
    decreases t.len(),
{
    if t.len() == 0 {
        0
    } else {
        digits_value(t.drop_last()) * 10 + (t.last() - 48) as nat
    }
}

/// All entries are the ASCII digits `0..=9`.
pub open spec fn all_digits(t: Seq<u8>) -> bool {
    forall|i: int| 0 <= i < t.len() ==> 48 <= #[trigger] t[i] <= 57
}

/// The digits of a token, after an optional leading `+`.
pub open spec fn token_digits(t: Seq<u8>) -> Seq<u8> {
    if t.len() > 0 && t[0] == 43 {
        t.drop_first()
    } else {
        t
    }
}

/// The token is an optional `+` and one or more digits, of value at most 255.
pub open spec fn is_u8_token(t: Seq<u8>) -> bool {
    let d = token_digits(t);
    d.len() > 0 && all_digits(d) && digits_value(d) <= 255
}

/// The value of a token that `is_u8_token` accepts.
pub open spec fn token_value(t: Seq<u8>) -> u8 {
    digits_value(token_digits(t)) as u8
}

proof fn lemma_split_spaces_len(s: Seq<u8>)
    ensures
        split_spaces(s).len() >= 1,
    decreases s.len(),
{
    if s.len() > 0 {
        lemma_split_spaces_len(s.drop_last());
    }
}

fn parse_token(s: &[u8], lo: usize, hi: usize) -> (r: Option<u8>)
    requires
        lo <= hi <= s@.len(),
    ensures
        r is Some <==> is_u8_token(s@.subrange(lo as int, hi as int)),
        r matches Some(v) ==> v == token_value(s@.subrange(lo as int, hi as int)),
{
    let ghost t = s@.subrange(lo as int, hi as int);
    let mut i = lo;
    if i < hi && s[i] == 43 {
        i = i + 1;
    }
    let first = i;
    let ghost d = s@.subrange(first as int, hi as int);
    assert(token_digits(t) =~= d);
    if i == hi {
        assert(d.len() == 0);
        assert(token_digits(t).len() == 0);
        assert(!is_u8_token(t));
        return None;
    }
    let mut acc: u32 = 0;
    assert(s@.subrange(first as int, first as int) =~= Seq::<u8>::empty());
    while i < hi
        invariant
            first <= i <= hi <= s@.len(),
            d == s@.subrange(first as int, hi as int),
            t == s@.subrange(lo as int, hi as int),
            token_digits(t) == d,
            d.len() > 0,
            acc <= 256,
            all_digits(s@.subrange(first as int, i as int)),
            digits_value(s@.subrange(first as int, i as int)) <= 255 ==> acc == digits_value(
                s@.subrange(first as int, i as int),
            ),
            digits_value(s@.subrange(first as int, i as int)) > 255 ==> acc == 256,
        decreases hi - i,
    {
        let c = s[i];
        if c < 48 || c > 57 {
            assert(d[i - first] == c);
            assert(!all_digits(d));
            return None;
        }
        let ghost p = s@.subrange(first as int, i + 1);
        assert(p.drop_last() =~= s@.subrange(first as int, i as int));
        assert(p.last() == c);
        acc = acc * 10 + (c - 48) as u32;
        if acc > 255 {
            acc = 256;
        }
        i = i + 1;
    }
    assert(s@.subrange(first as int, i as int) =~= d);
    if acc > 255 {
        None
    } else {
        Some(acc as u8)
    }
}

proof fn lemma_split_step(s: Seq<u8>, i: int)
    requires
        0 <= i < s.len(),
    ensures
        s[i] == 32 ==> split_spaces(s.take(i + 1)) == split_spaces(s.take(i)).push(Seq::empty()),
        s[i] != 32 ==> split_spaces(s.take(i + 1)) == split_spaces(s.take(i)).update(
            split_spaces(s.take(i)).len() - 1,
            split_spaces(s.take(i)).last().push(s[i]),
        ),
{
    assert(s.take(i + 1).drop_last() =~= s.take(i));
}

/// Parses the symbols of a state written as decimal numbers separated by
/// single spaces.
#[verifier::rlimit(30)]
pub fn collect_block(block: &str) -> (r: Result<Vec<u8>, StateError>)
    ensures
        r is Ok <==> forall|i: int|
            0 <= i < split_spaces(block.spec_bytes()).len() ==> #[trigger] is_u8_token(
                split_spaces(block.spec_bytes())[i],
            ),
        r matches Ok(v) ==> v@ == split_spaces(block.spec_bytes()).map_values(
            |t: Seq<u8>| token_value(t),
        ),
        r matches Err(e) ==> e == StateError::NotANumber,
{
    let s = block.as_bytes();
    let ghost toks = split_spaces(s@);
    let mut v: Vec<u8> = Vec::new();
    let ghost mut done: Seq<Seq<u8>> = Seq::empty();
    let mut start: usize = 0;
    let mut i: usize = 0;
    proof {
        assert(s@.take(0) =~= Seq::<u8>::empty());
        assert(s@.subrange(0, 0) =~= Seq::<u8>::empty());
        assert(split_spaces(s@.take(0)) =~= done.push(s@.subrange(0, 0)));
        assert(v@ =~= done.map_values(|t: Seq<u8>| token_value(t)));
    }
    while i < s.len()
        invariant
            s@ == block.spec_bytes(),
            toks == split_spaces(s@),
            start <= i <= s@.len(),
            split_spaces(s@.take(i as int)) == done.push(s@.subrange(start as int, i as int)),
            forall|j: int| 0 <= j < done.len() ==> #[trigger] is_u8_token(done[j]),
            v@ == done.map_values(|t: Seq<u8>| token_value(t)),
        decreases s@.len() - i,
    {
        let ghost cur = s@.subrange(start as int, i as int);
        proof {
            lemma_split_step(s@, i as int);
        }
        if s[i] == 32 {
            match parse_token(s, start, i) {
                None => {
                    proof {
                        lemma_prefix_tokens(s@, i as int);
                        assert(done.push(cur)[done.len() as int] == cur);
                        assert(toks[done.len() as int] == cur);
                        assert(!is_u8_token(toks[done.len() as int]));
                    }
                    return Err(StateError::NotANumber);
                },
                Some(val) => {
                    v.push(val);
                    proof {
                        let old_done = done;
                        done = done.push(cur);
                        assert(v@ =~= done.map_values(|t: Seq<u8>| token_value(t)));
                        assert(s@.subrange((i + 1) as int, (i + 1) as int) =~= Seq::<u8>::empty());
                        assert(split_spaces(s@.take(i + 1)) =~= done.push(
                            s@.subrange((i + 1) as int, (i + 1) as int),
                        ));
                        assert forall|j: int| 0 <= j < done.len() implies #[trigger] is_u8_token(
                            done[j],
                        ) by {
                            if j < old_done.len() {
                                assert(done[j] == old_done[j]);
                            }
                        }
                    }
                    start = i + 1;
                },
            }
        } else {
            proof {
                assert(s@.subrange(start as int, i + 1) =~= cur.push(s@[i as int]));
                assert(split_spaces(s@.take(i + 1)) =~= done.push(
                    s@.subrange(start as int, i + 1),
                ));
            }
        }
        i = i + 1;
    }
    assert(s@.take(i as int) =~= s@);
    let ghost cur = s@.subrange(start as int, i as int);
    match parse_token(s, start, i) {
        None => {
            assert(toks[done.len() as int] == cur);
            Err(StateError::NotANumber)
        },
        Some(val) => {
            v.push(val);
            proof {
                assert(toks == done.push(cur));
                assert(v@ =~= toks.map_values(|t: Seq<u8>| token_value(t)));
                assert forall|j: int| 0 <= j < toks.len() implies #[trigger] is_u8_token(
                    toks[j],
                ) by {
                    if j < done.len() {
                        assert(toks[j] == done[j]);
                    }
                }
            }
            Ok(v)
        },
    }
}

/// The split of a prefix ending at a space agrees with the whole split on
/// the pieces before that space.
proof fn lemma_prefix_tokens(s: Seq<u8>, i: int)
    requires
        0 <= i < s.len(),
        s[i] == 32,
    ensures
        split_spaces(s).len() >= split_spaces(s.take(i)).len() + 1,
        forall|j: int|
            0 <= j < split_spaces(s.take(i)).len() ==> #[trigger] split_spaces(s)[j]
                == split_spaces(s.take(i))[j],
    decreases s.len(),
{
    lemma_split_spaces_len(s.take(i));
    if s.len() == i + 1 {
        assert(s.drop_last() =~= s.take(i));
    } else {
        let w = s.drop_last();
        assert(w.take(i) =~= s.take(i));
        lemma_prefix_tokens(w, i);
        lemma_split_spaces_len(w);
    }
}

/// The symbols that a text gives, if every piece of it is a number.
pub open spec fn block_values(s: Seq<u8>) -> Option<Seq<u8>> {
    let toks = split_spaces(s);
    if forall|i: int| 0 <= i < toks.len() ==> #[trigger] is_u8_token(toks[i]) {
        Some(toks.map_values(|t: Seq<u8>| token_value(t)))
    } else {
        None
    }
}

/// Parses a state written as 32 decimal symbols separated by single spaces
/// and checks it: a piece that is not a number, then the length, the
/// symmetry of the first quarter and the range of the symbols.
pub fn parse_state(arg: &str) -> (r: Result<Vec<u8>, StateError>)
    ensures
        block_values(arg.spec_bytes()) is None ==> r == Err::<Vec<u8>, StateError>(
            StateError::NotANumber,
        ),
        block_values(arg.spec_bytes()) matches Some(v) ==> match state_check(v) {
            Ok(()) => (r matches Ok(w) && w@ == v),
            Err(e) => r == Err::<Vec<u8>, StateError>(e),
        },
{
    let h = collect_block(arg)?;
    match validate_state(h.as_slice()) {
        Ok(()) => Ok(h),
        Err(e) => Err(e),
    }
}

} // verus!
